//! The cache of upstream mirrors.
//!
//! Each distinct upstream URL string owns one local bare mirror under the
//! cache root, at a path derived deterministically from the URL text. An
//! existing mirror is refreshed in place by fetching all refs; a missing one
//! is created by a full bare clone.
//!
//! Open question, inherited knowingly: the cache is shared mutable state on
//! disk across invocations and nothing locks it, so two concurrent
//! invocations against one URL race on refresh or clone.

use vstd::prelude::*;

use base64::Engine;

use crate::bytepath::{chars_to_bytes, join_path, spec_join};
use crate::errors::SubcopyError;

verus! {

/// The base64 text, URL-safe alphabet without padding, of a byte string.
pub uninterp spec fn base64_url_of(s: Seq<u8>) -> Seq<u8>;

/// Relies on base64's `URL_SAFE_NO_PAD` engine: the encoding is a function
/// of the input bytes alone. The length bound keeps the engine's output-size
/// arithmetic inside `usize`.
#[verifier::external_body]
fn base64_url_encode(bytes: &Vec<u8>) -> (r: Vec<u8>)
    requires
        bytes@.len() <= (usize::MAX - 4) / 4,
    ensures
        r@ == base64_url_of(bytes@),
{
    base64::engine::general_purpose::URL_SAFE_NO_PAD.encode(bytes.as_slice()).into_bytes()
}

/// How a mirror is brought up to date.
#[derive(Clone, Copy, Debug, PartialEq, Eq, Structural)]
pub enum MirrorAction {
    /// Open the existing bare mirror and fetch all refs anonymously.
    Refresh,
    /// Clone the upstream into a fresh bare mirror.
    CloneFresh,
}

/// The steps of carrying a mirror action out.
#[derive(Clone, Copy, Debug, PartialEq, Eq, Structural)]
pub enum MirrorStep {
    /// Opening the existing path as a bare repository.
    OpenBare,
    /// Fetching all refs from the upstream.
    FetchRefs,
    /// Cloning the upstream into the mirror path.
    CloneRemote,
}

/// Where a mirror lives and how to bring it up to date.
pub struct MirrorPlan {
    /// The mirror's path under the cache root.
    pub path: Vec<u8>,
    pub action: MirrorAction,
}

/// The cache of upstream mirrors under one root directory.
pub struct MirrorCache {
    /// The directory that holds one bare mirror per upstream URL.
    pub cache_dir: Vec<u8>,
}

impl MirrorCache {
    /// The cache under the tool's own directory inside the given cache root.
    pub fn new(cache_root: Vec<u8>) -> (c: Self)
        ensures
            c.cache_dir@ == spec_join(cache_root@, chars_to_bytes("git-subcopy"@)),
    {
        let name: Vec<u8> = vec![
            103u8,
            105u8,
            116u8,
            45u8,
            115u8,
            117u8,
            98u8,
            99u8,
            111u8,
            112u8,
            121u8,
        ];
        proof {
            reveal_strlit("git-subcopy");
            assert(name@ =~= chars_to_bytes("git-subcopy"@));
        }
        let cache_dir = join_path(&cache_root, &name);
        MirrorCache { cache_dir }
    }

    /// The mirror location for `url` — the same URL text always yields the
    /// same path — and whether to refresh the mirror in place or clone a
    /// fresh one, by whether a mirror already exists there.
    pub fn fetch(&self, url: &Vec<u8>, mirror_exists: bool) -> (r: MirrorPlan)
        requires
            url@.len() <= (usize::MAX - 4) / 4,
        ensures
            r.path@ == spec_join(self.cache_dir@, base64_url_of(url@)),
            r.action == (if mirror_exists {
                MirrorAction::Refresh
            } else {
                MirrorAction::CloneFresh
            }),
    {
        let name = base64_url_encode(url);
        let path = join_path(&self.cache_dir, &name);
        let action = if mirror_exists {
            MirrorAction::Refresh
        } else {
            MirrorAction::CloneFresh
        };
        MirrorPlan { path, action }
    }
}

/// The error a failed mirror step reports: an existing path that does not
/// open as a repository is a corrupt mirror; a failed transfer is a
/// transport failure.
pub fn mirror_failure(step: MirrorStep) -> (e: SubcopyError)
    ensures
        e == (match step {
            MirrorStep::OpenBare => SubcopyError::CorruptMirror,
            MirrorStep::FetchRefs => SubcopyError::Transport,
            MirrorStep::CloneRemote => SubcopyError::Transport,
        }),
{
    match step {
        MirrorStep::OpenBare => SubcopyError::CorruptMirror,
        MirrorStep::FetchRefs => SubcopyError::Transport,
        MirrorStep::CloneRemote => SubcopyError::Transport,
    }
}

} // verus!
