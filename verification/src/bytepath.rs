//! Paths as byte strings.
//!
//! Upstream trees name their entries with raw bytes, so the library models
//! every path as a byte string with `/` separators and converts to UTF-8
//! text only where a textual form is required (provenance keys, display).

use vstd::prelude::*;

use crate::errors::SubcopyError;

verus! {

/// The path separator byte, `/`.
pub const SEP: u8 = 47;

/// The bytes of an ASCII string, one byte per character.
pub open spec fn chars_to_bytes(s: Seq<char>) -> Seq<u8> {
    s.map_values(|c: char| c as u8)
}

/// Joining `rel` under `base`: an empty side leaves the other unchanged, and
/// exactly one separator stands between two non-empty sides.
pub open spec fn spec_join(base: Seq<u8>, rel: Seq<u8>) -> Seq<u8> {
    if base.len() == 0 {
        rel
    } else if rel.len() == 0 {
        base
    } else if base.last() == SEP {
        base + rel
    } else {
        base + seq![SEP] + rel
    }
}

/// The suffix of `path` below `prefix`: `Some` exactly when `path` equals
/// `prefix` or continues it across a separator.
pub open spec fn spec_strip(prefix: Seq<u8>, path: Seq<u8>) -> Option<Seq<u8>> {
    if prefix.len() == 0 {
        Some(path)
    } else if path == prefix {
        Some(Seq::empty())
    } else if prefix.len() < path.len() && path.take(prefix.len() as int) == prefix {
        if prefix.last() == SEP {
            Some(path.skip(prefix.len() as int))
        } else if path[prefix.len() as int] == SEP {
            Some(path.skip(prefix.len() as int + 1))
        } else {
            None
        }
    } else {
        None
    }
}

/// The segments of `path` between separators; never empty, and empty
/// segments are kept so that joining them back restores the path.
pub open spec fn spec_split(path: Seq<u8>) -> Seq<Seq<u8>> {
    spec_split_from(path, Seq::empty())
}

/// Splitting what remains of a path while `cur` collects the bytes of the
/// current segment seen so far.
pub open spec fn spec_split_from(rest: Seq<u8>, cur: Seq<u8>) -> Seq<Seq<u8>>
    decreases rest.len(),
{
    if rest.len() == 0 {
        seq![cur]
    } else if rest[0] == SEP {
        seq![cur] + spec_split_from(rest.skip(1), Seq::empty())
    } else {
        spec_split_from(rest.skip(1), cur.push(rest[0]))
    }
}

/// The views of a vector of byte vectors.
pub open spec fn views_of(s: Seq<Vec<u8>>) -> Seq<Seq<u8>> {
    s.map_values(|v: Vec<u8>| v@)
}

/// Two relative suffixes that join to the same path under one base are the
/// same suffix.
pub proof fn lemma_join_injective(base: Seq<u8>, r1: Seq<u8>, r2: Seq<u8>)
    requires
        spec_join(base, r1) == spec_join(base, r2),
    ensures
        r1 == r2,
{
    let j = spec_join(base, r1);
    if base.len() == 0 {
    } else if r1.len() == 0 && r2.len() == 0 {
        assert(r1 =~= r2);
    } else if r1.len() == 0 || r2.len() == 0 {
        // One join is the base itself; the other is strictly longer.
        assert(false);
    } else if base.last() == SEP {
        assert(r1 =~= j.skip(base.len() as int));
        assert(r2 =~= j.skip(base.len() as int));
    } else {
        assert(r1 =~= j.skip(base.len() as int + 1));
        assert(r2 =~= j.skip(base.len() as int + 1));
    }
}

/// Stripping a base off a joined path recovers the suffix: resolving a
/// destination relative to the working directory inverts joining it there.
pub proof fn lemma_join_strip(base: Seq<u8>, rel: Seq<u8>)
    ensures
        spec_strip(base, spec_join(base, rel)) == Some(rel),
{
    let p = spec_join(base, rel);
    if base.len() == 0 {
    } else if rel.len() == 0 {
        assert(p == base);
    } else if base.last() == SEP {
        assert(p != base);
        assert(p.take(base.len() as int) =~= base);
        assert(p.skip(base.len() as int) =~= rel);
    } else {
        assert(p != base) by {
            if p == base {
                assert(p.len() == base.len());
            }
        }
        assert(p.take(base.len() as int) =~= base);
        assert(p[base.len() as int] == SEP);
        assert(p.skip(base.len() as int + 1) =~= rel);
    }
}

/// Joining a stripped suffix back restores the path. (The one stripped form
/// this cannot restore is a path that is the base plus a bare trailing
/// separator, whose suffix is empty like the base's own.)
pub proof fn lemma_strip_join(base: Seq<u8>, path: Seq<u8>)
    requires
        spec_strip(base, path) matches Some(rel) && (rel.len() > 0 || path == base),
    ensures
        spec_join(base, spec_strip(base, path)->Some_0) == path,
{
    let rel = spec_strip(base, path)->Some_0;
    if base.len() == 0 {
    } else if path == base {
    } else if base.last() == SEP {
        assert(spec_join(base, rel) =~= path);
    } else {
        assert(spec_join(base, rel) =~= path);
    }
}

/// Whether two byte strings hold the same bytes.
pub fn bytes_eq(a: &Vec<u8>, b: &Vec<u8>) -> (r: bool)
    ensures
        r == (a@ == b@),
{
    if a.len() != b.len() {
        return false;
    }
    let mut i: usize = 0;
    while i < a.len()
        invariant
            i <= a.len(),
            a@.len() == b@.len(),
            forall|j: int| 0 <= j < i ==> a@[j] == b@[j],
        decreases a@.len() - i,
    {
        if a[i] != b[i] {
            return false;
        }
        i = i + 1;
    }
    proof {
        assert(a@ =~= b@);
    }
    true
}

/// Copies a byte string.
pub fn clone_bytes(v: &Vec<u8>) -> (r: Vec<u8>)
    ensures
        r@ == v@,
{
    let r = v.clone();
    proof {
        assert(r@ =~= v@);
    }
    r
}

/// Whether `v` begins with `prefix`.
pub fn bytes_starts_with(v: &Vec<u8>, prefix: &Vec<u8>) -> (r: bool)
    ensures
        r == (v@.len() >= prefix@.len() && v@.take(prefix@.len() as int) == prefix@),
{
    if v.len() < prefix.len() {
        return false;
    }
    let mut i: usize = 0;
    while i < prefix.len()
        invariant
            i <= prefix.len(),
            prefix.len() <= v.len(),
            forall|j: int| 0 <= j < i ==> v@[j] == prefix@[j],
        decreases prefix@.len() - i,
    {
        if v[i] != prefix[i] {
            proof {
                assert(v@.take(prefix@.len() as int) != prefix@) by {
                    if v@.take(prefix@.len() as int) == prefix@ {
                        assert(v@.take(prefix@.len() as int)[i as int] == prefix@[i as int]);
                    }
                }
            }
            return false;
        }
        i = i + 1;
    }
    proof {
        assert(v@.take(prefix@.len() as int) =~= prefix@);
    }
    true
}

/// Whether `v` ends with `suffix`.
pub fn bytes_ends_with(v: &Vec<u8>, suffix: &Vec<u8>) -> (r: bool)
    ensures
        r == (v@.len() >= suffix@.len() && v@.skip(v@.len() - suffix@.len()) == suffix@),
{
    if v.len() < suffix.len() {
        return false;
    }
    let offset = v.len() - suffix.len();
    let mut i: usize = 0;
    while i < suffix.len()
        invariant
            i <= suffix.len(),
            offset == v@.len() - suffix@.len(),
            offset + suffix@.len() == v@.len(),
            v@.len() <= usize::MAX,
            forall|j: int| 0 <= j < i ==> v@[offset + j] == suffix@[j],
        decreases suffix@.len() - i,
    {
        if v[offset + i] != suffix[i] {
            proof {
                assert(v@.skip(v@.len() - suffix@.len()) != suffix@) by {
                    if v@.skip(v@.len() - suffix@.len()) == suffix@ {
                        assert(v@.skip(v@.len() - suffix@.len())[i as int] == suffix@[i as int]);
                    }
                }
            }
            return false;
        }
        i = i + 1;
    }
    proof {
        assert(v@.skip(v@.len() - suffix@.len()) =~= suffix@);
    }
    true
}

/// The bytes of `v` from `from` (inclusive) to `to` (exclusive).
pub fn sub_bytes(v: &Vec<u8>, from: usize, to: usize) -> (r: Vec<u8>)
    requires
        from <= to <= v@.len(),
    ensures
        r@ == v@.subrange(from as int, to as int),
{
    let mut r: Vec<u8> = Vec::new();
    let mut i: usize = from;
    while i < to
        invariant
            from <= i <= to <= v@.len(),
            r@ == v@.subrange(from as int, i as int),
        decreases to - i,
    {
        r.push(v[i]);
        i = i + 1;
        proof {
            assert(v@.subrange(from as int, i as int) =~= r@);
        }
    }
    r
}

/// Appends the bytes of `src` to `dst`.
pub fn push_bytes(dst: &mut Vec<u8>, src: &Vec<u8>)
    ensures
        final(dst)@ == old(dst)@ + src@,
{
    let mut i: usize = 0;
    while i < src.len()
        invariant
            i <= src.len(),
            dst@ == old(dst)@ + src@.take(i as int),
        decreases src@.len() - i,
    {
        dst.push(src[i]);
        i = i + 1;
        proof {
            assert(old(dst)@ + src@.take(i as int) =~= dst@);
        }
    }
    proof {
        assert(old(dst)@ + src@.take(src@.len() as int) =~= old(dst)@ + src@);
    }
}

/// Joins `rel` under `base`.
pub fn join_path(base: &Vec<u8>, rel: &Vec<u8>) -> (r: Vec<u8>)
    ensures
        r@ == spec_join(base@, rel@),
{
    let mut r: Vec<u8> = Vec::new();
    push_bytes(&mut r, base);
    if base.len() > 0 && rel.len() > 0 {
        if base[base.len() - 1] != SEP {
            r.push(SEP);
        }
        push_bytes(&mut r, rel);
    } else if base.len() == 0 {
        push_bytes(&mut r, rel);
    }
    proof {
        assert(r@ =~= spec_join(base@, rel@));
    }
    r
}

/// Strips `prefix` from the front of `path`, across a separator.
pub fn strip_prefix(prefix: &Vec<u8>, path: &Vec<u8>) -> (r: Option<Vec<u8>>)
    ensures
        match r {
            Some(rest) => spec_strip(prefix@, path@) == Some(rest@),
            None => spec_strip(prefix@, path@) is None,
        },
{
    if prefix.len() > path.len() {
        proof {
            assert(path@ != prefix@) by {
                if path@ == prefix@ {
                    assert(path@.len() == prefix@.len());
                }
            }
        }
        return None;
    }
    let mut i: usize = 0;
    while i < prefix.len()
        invariant
            i <= prefix.len(),
            prefix.len() <= path.len(),
            forall|j: int| 0 <= j < i ==> path@[j] == prefix@[j],
        decreases prefix@.len() - i,
    {
        if path[i] != prefix[i] {
            proof {
                assert(path@ != prefix@) by {
                    if path@ == prefix@ {
                        assert(path@[i as int] == prefix@[i as int]);
                    }
                }
                assert(path@.take(prefix@.len() as int) != prefix@) by {
                    if path@.take(prefix@.len() as int) == prefix@ {
                        assert(path@.take(prefix@.len() as int)[i as int] == prefix@[i as int]);
                    }
                }
            }
            return None;
        }
        i = i + 1;
    }
    // The prefix bytes match.
    proof {
        assert(path@.take(prefix@.len() as int) =~= prefix@);
    }
    if prefix.len() == path.len() {
        proof {
            assert(path@ =~= prefix@);
        }
        let rest: Vec<u8> = Vec::new();
        proof {
            if prefix@.len() == 0 {
                assert(path@ =~= Seq::<u8>::empty());
            }
        }
        return Some(rest);
    }
    if prefix.len() == 0 {
        let mut rest: Vec<u8> = Vec::new();
        push_bytes(&mut rest, path);
        return Some(rest);
    }
    proof {
        assert(path@ != prefix@) by {
            if path@ == prefix@ {
                assert(path@.len() == prefix@.len());
            }
        }
    }
    if prefix[prefix.len() - 1] == SEP {
        let mut rest: Vec<u8> = Vec::new();
        let mut i: usize = prefix.len();
        while i < path.len()
            invariant
                prefix.len() <= i <= path.len(),
                rest@ == path@.subrange(prefix@.len() as int, i as int),
            decreases path@.len() - i,
        {
            rest.push(path[i]);
            i = i + 1;
            proof {
                assert(path@.subrange(prefix@.len() as int, i as int) =~= rest@);
            }
        }
        proof {
            assert(rest@ =~= path@.skip(prefix@.len() as int));
        }
        Some(rest)
    } else if path[prefix.len()] == SEP {
        let mut rest: Vec<u8> = Vec::new();
        let mut i: usize = prefix.len() + 1;
        while i < path.len()
            invariant
                prefix.len() + 1 <= i <= path.len(),
                rest@ == path@.subrange(prefix@.len() as int + 1, i as int),
            decreases path@.len() - i,
        {
            rest.push(path[i]);
            i = i + 1;
            proof {
                assert(path@.subrange(prefix@.len() as int + 1, i as int) =~= rest@);
            }
        }
        proof {
            assert(rest@ =~= path@.skip(prefix@.len() as int + 1));
        }
        Some(rest)
    } else {
        None
    }
}

/// Splits `path` into its segments.
pub fn split_path(path: &Vec<u8>) -> (r: Vec<Vec<u8>>)
    ensures
        views_of(r@) == spec_split(path@),
        r@.len() >= 1,
{
    let mut out: Vec<Vec<u8>> = Vec::new();
    let mut cur: Vec<u8> = Vec::new();
    let mut i: usize = 0;
    proof {
        assert(path@.skip(0) =~= path@);
    }
    while i < path.len()
        invariant
            i <= path.len(),
            spec_split(path@) == views_of(out@) + spec_split_from(path@.skip(i as int), cur@),
        decreases path@.len() - i,
    {
        let ghost prev_rest = path@.skip(i as int);
        let ghost prev_out = out@;
        let ghost prev_cur = cur@;
        if path[i] == SEP {
            out.push(cur);
            cur = Vec::new();
        } else {
            cur.push(path[i]);
        }
        i = i + 1;
        proof {
            assert(prev_rest.skip(1) =~= path@.skip(i as int));
            if prev_rest[0] == SEP {
                assert(views_of(out@) =~= views_of(prev_out) + seq![prev_cur]);
                assert(views_of(prev_out) + spec_split_from(prev_rest, prev_cur)
                    =~= views_of(out@) + spec_split_from(path@.skip(i as int), cur@));
            } else {
                assert(views_of(prev_out) + spec_split_from(prev_rest, prev_cur)
                    =~= views_of(out@) + spec_split_from(path@.skip(i as int), cur@));
            }
        }
    }
    proof {
        assert(path@.skip(path@.len() as int) =~= Seq::<u8>::empty());
    }
    out.push(cur);
    proof {
        assert(views_of(out@) =~= spec_split(path@));
    }
    out
}

/// Turns bytes into text. Relies on `String::from_utf8`: it succeeds exactly
/// on valid UTF-8 input and returns a string with those same bytes.
#[verifier::external_body]
fn bytes_into_string(bytes: &Vec<u8>) -> (r: Option<String>)
    ensures
        r is Some <==> vstd::utf8::valid_utf8(bytes@),
        r matches Some(s) ==> vstd::utf8::encode_utf8(s@) == bytes@,
{
    String::from_utf8(bytes.clone()).ok()
}

/// The textual form of a byte path, or `NonUtf8Name` where the bytes are not
/// valid UTF-8.
pub fn path_to_string(path: &Vec<u8>) -> (r: Result<String, SubcopyError>)
    ensures
        r matches Ok(s) ==> vstd::utf8::valid_utf8(path@) && vstd::utf8::encode_utf8(s@) == path@,
        r matches Err(e) ==> !vstd::utf8::valid_utf8(path@) && e == SubcopyError::NonUtf8Name,
{
    match bytes_into_string(path) {
        Some(s) => Ok(s),
        None => Err(SubcopyError::NonUtf8Name),
    }
}

} // verus!
