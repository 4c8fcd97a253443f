//! Synchronization sessions.
//!
//! A session builds an ephemeral scratch repository holding the pristine
//! upstream subtree at a fixed revision, overlays the destination's current
//! content on top (copy-in), hands control to a caller-supplied interactive
//! operation, and copies the scratch tree back onto the destination
//! (copy-out) only if that operation succeeds. The surrounding process
//! performs each phase and reports whether it succeeded; this module decides
//! what happens next, computes the exact copy steps of the two directional
//! synchronizations, and states the transactional guarantee: the destination
//! is written only out of a successful operation.

use vstd::prelude::*;

use crate::errors::SubcopyError;
use crate::bytepath::{
    chars_to_bytes, clone_bytes, join_path, lemma_join_injective, lemma_join_strip,
    lemma_strip_join, spec_join, spec_split, spec_strip, split_path, strip_prefix,
};

verus! {

/// The phases of one session, in the order the surrounding process drives
/// them. Every failure after the scratch directory exists passes through
/// `Cleanup`, so the directory is removed on every exit path.
#[derive(Clone, Copy, Debug, PartialEq, Eq, Structural)]
pub enum SessionPhase {
    /// Create the fresh temporary scratch directory.
    CreateScratch,
    /// Bring the mirror of the upstream up to date.
    FetchMirror,
    /// Clone the mirror into the scratch root.
    CloneScratch,
    /// Point the scratch repository's upstream remote at the real upstream.
    AddRemote,
    /// Resolve the requested revision to an immutable identifier.
    ResolveRevision,
    /// Reset the scratch tree to the pristine upstream content.
    ResetPristine,
    /// Copy the destination's current content over the pristine tree.
    CopyIn,
    /// Hand control to the caller's interactive operation; its failure is
    /// reported as `Subprocess`.
    RunOperation,
    /// Copy the scratch tree back onto the destination.
    CopyOut,
    /// Remove the scratch directory, remembering how the session went.
    Cleanup { succeeded: bool },
    /// The session is over and the destination holds the result.
    Done,
    /// The session failed; the destination was never written.
    Failed,
}

/// The phase that follows `phase` when it ends with success `ok`. A failure
/// before the scratch directory exists ends the session at once; any later
/// failure first cleans the directory up. A failed interactive operation
/// skips `CopyOut` entirely, and a cleanup's own outcome is ignored, as
/// removing a temporary directory is best-effort.
pub open spec fn spec_session_step(phase: SessionPhase, ok: bool) -> SessionPhase {
    match phase {
        SessionPhase::CreateScratch => if ok {
            SessionPhase::FetchMirror
        } else {
            SessionPhase::Failed
        },
        SessionPhase::FetchMirror => if ok {
            SessionPhase::CloneScratch
        } else {
            SessionPhase::Cleanup { succeeded: false }
        },
        SessionPhase::CloneScratch => if ok {
            SessionPhase::AddRemote
        } else {
            SessionPhase::Cleanup { succeeded: false }
        },
        SessionPhase::AddRemote => if ok {
            SessionPhase::ResolveRevision
        } else {
            SessionPhase::Cleanup { succeeded: false }
        },
        SessionPhase::ResolveRevision => if ok {
            SessionPhase::ResetPristine
        } else {
            SessionPhase::Cleanup { succeeded: false }
        },
        SessionPhase::ResetPristine => if ok {
            SessionPhase::CopyIn
        } else {
            SessionPhase::Cleanup { succeeded: false }
        },
        SessionPhase::CopyIn => if ok {
            SessionPhase::RunOperation
        } else {
            SessionPhase::Cleanup { succeeded: false }
        },
        SessionPhase::RunOperation => if ok {
            SessionPhase::CopyOut
        } else {
            SessionPhase::Cleanup { succeeded: false }
        },
        SessionPhase::CopyOut => SessionPhase::Cleanup { succeeded: ok },
        SessionPhase::Cleanup { succeeded } => if succeeded {
            SessionPhase::Done
        } else {
            SessionPhase::Failed
        },
        SessionPhase::Done => SessionPhase::Done,
        SessionPhase::Failed => SessionPhase::Failed,
    }
}

/// Advances a session by one phase outcome.
pub fn session_step(phase: SessionPhase, ok: bool) -> (r: SessionPhase)
    ensures
        r == spec_session_step(phase, ok),
{
    match phase {
        SessionPhase::CreateScratch => if ok {
            SessionPhase::FetchMirror
        } else {
            SessionPhase::Failed
        },
        SessionPhase::FetchMirror => if ok {
            SessionPhase::CloneScratch
        } else {
            SessionPhase::Cleanup { succeeded: false }
        },
        SessionPhase::CloneScratch => if ok {
            SessionPhase::AddRemote
        } else {
            SessionPhase::Cleanup { succeeded: false }
        },
        SessionPhase::AddRemote => if ok {
            SessionPhase::ResolveRevision
        } else {
            SessionPhase::Cleanup { succeeded: false }
        },
        SessionPhase::ResolveRevision => if ok {
            SessionPhase::ResetPristine
        } else {
            SessionPhase::Cleanup { succeeded: false }
        },
        SessionPhase::ResetPristine => if ok {
            SessionPhase::CopyIn
        } else {
            SessionPhase::Cleanup { succeeded: false }
        },
        SessionPhase::CopyIn => if ok {
            SessionPhase::RunOperation
        } else {
            SessionPhase::Cleanup { succeeded: false }
        },
        SessionPhase::RunOperation => if ok {
            SessionPhase::CopyOut
        } else {
            SessionPhase::Cleanup { succeeded: false }
        },
        SessionPhase::CopyOut => SessionPhase::Cleanup { succeeded: ok },
        SessionPhase::Cleanup { succeeded } => if succeeded {
            SessionPhase::Done
        } else {
            SessionPhase::Failed
        },
        SessionPhase::Done => SessionPhase::Done,
        SessionPhase::Failed => SessionPhase::Failed,
    }
}

/// The destination is written in the `CopyOut` phase and nowhere else, and
/// that phase is entered exactly out of an interactive operation that
/// succeeded: a failed operation can never reach the write-back.
pub proof fn lemma_copy_out_gated(phase: SessionPhase, ok: bool)
    ensures
        spec_session_step(phase, ok) == SessionPhase::CopyOut <==> (phase
            == SessionPhase::RunOperation && ok),
{
}

/// The scratch tree after the overlay: the pristine upstream files with the
/// destination's current files written over them wherever paths coincide.
pub open spec fn overlay(
    pristine: Map<Seq<u8>, Seq<u8>>,
    local: Map<Seq<u8>, Seq<u8>>,
) -> Map<Seq<u8>, Seq<u8>> {
    pristine.union_prefer_right(local)
}

/// The destination after copy-out: its files with the scratch tree's files
/// written over them wherever paths coincide.
pub open spec fn copy_back(
    dest: Map<Seq<u8>, Seq<u8>>,
    scratch: Map<Seq<u8>, Seq<u8>>,
) -> Map<Seq<u8>, Seq<u8>> {
    dest.union_prefer_right(scratch)
}

/// The destination's files when a session ends: rewritten from the scratch
/// tree only where the interactive operation succeeded, untouched otherwise.
pub open spec fn session_result(
    dest: Map<Seq<u8>, Seq<u8>>,
    scratch: Map<Seq<u8>, Seq<u8>>,
    op_succeeded: bool,
) -> Map<Seq<u8>, Seq<u8>> {
    if op_succeeded {
        copy_back(dest, scratch)
    } else {
        dest
    }
}

/// Atomicity: whatever state the scratch tree ends in, a session whose
/// operation fails leaves the destination byte-identical to its state before
/// the call.
pub proof fn lemma_session_atomic(dest: Map<Seq<u8>, Seq<u8>>, scratch: Map<Seq<u8>, Seq<u8>>)
    ensures
        session_result(dest, scratch, false) == dest,
{
}

/// Idempotence: a session whose operation performs no mutation — the scratch
/// tree it hands back is exactly the overlay it was given — leaves the
/// destination byte-identical, provided every pristine path is also present
/// at the destination. (Without that proviso the claim fails: a pristine
/// file deleted locally would be restored by copy-out.)
pub proof fn lemma_session_idempotent(
    pristine: Map<Seq<u8>, Seq<u8>>,
    dest: Map<Seq<u8>, Seq<u8>>,
)
    requires
        pristine.dom().subset_of(dest.dom()),
    ensures
        session_result(dest, overlay(pristine, dest), true) == dest,
{
    assert(overlay(pristine, dest) =~= dest);
    assert(copy_back(dest, dest) =~= dest);
}

/// The caller's interactive operation reports plainly whether it succeeded;
/// a failure is the session's `Subprocess` error.
pub fn operation_outcome(exit_ok: bool) -> (r: Result<(), SubcopyError>)
    ensures
        r == (if exit_ok {
            Ok::<(), SubcopyError>(())
        } else {
            Err::<(), SubcopyError>(SubcopyError::Subprocess)
        }),
{
    if exit_ok {
        Ok(())
    } else {
        Err(SubcopyError::Subprocess)
    }
}

/// One entry met while walking a directory tree on disk.
pub struct WalkEntry {
    /// The entry's full path as walked.
    pub path: Vec<u8>,
    /// Whether the entry is a directory (anything else is copied as a file).
    pub is_dir: bool,
}

/// One step of a directional copy: create `to` as a directory, or copy the
/// file at `from` to `to`.
#[derive(Debug, PartialEq, Eq)]
pub struct CopyStep {
    pub from: Vec<u8>,
    pub to: Vec<u8>,
    pub is_dir: bool,
}

/// The mathematical form of a copy step.
pub struct CopyStepView {
    pub from: Seq<u8>,
    pub to: Seq<u8>,
    pub is_dir: bool,
}

impl View for CopyStep {
    type V = CopyStepView;

    open spec fn view(&self) -> CopyStepView {
        CopyStepView { from: self.from@, to: self.to@, is_dir: self.is_dir }
    }
}

/// The views of a plan's steps.
pub open spec fn steps_view(s: Seq<CopyStep>) -> Seq<CopyStepView> {
    s.map_values(|c: CopyStep| c@)
}

/// The name of a repository's own metadata directory, which copy-out leaves
/// behind.
pub open spec fn dotgit() -> Seq<u8> {
    chars_to_bytes(".git"@)
}

/// Whether a relative path has a repository-metadata segment, and is
/// therefore excluded from copy-out.
pub open spec fn excluded(rel: Seq<u8>) -> bool {
    spec_split(rel).contains(dotgit())
}

/// The copy step for one entry of the walk rooted at `from_root`, rebased
/// under `to_root`; `None` for an entry that copy-out excludes.
pub open spec fn copy_step_for(
    e: WalkEntry,
    from_root: Seq<u8>,
    to_root: Seq<u8>,
    exclude_metadata: bool,
) -> Option<CopyStepView> {
    match spec_strip(from_root, e.path@) {
        Some(rel) => if exclude_metadata && excluded(rel) {
            None
        } else {
            Some(CopyStepView { from: e.path@, to: spec_join(to_root, rel), is_dir: e.is_dir })
        },
        None => None,
    }
}

/// The copy steps of a whole walk.
pub open spec fn copy_plan_view(
    entries: Seq<WalkEntry>,
    from_root: Seq<u8>,
    to_root: Seq<u8>,
    exclude_metadata: bool,
) -> Seq<CopyStepView> {
    entries.filter_map(
        |e: WalkEntry| copy_step_for(e, from_root, to_root, exclude_metadata),
    )
}

/// Whether `rel` has a repository-metadata segment.
fn is_excluded(rel: &Vec<u8>) -> (r: bool)
    ensures
        r == excluded(rel@),
{
    let segs = split_path(rel);
    let git: Vec<u8> = vec![46u8, 103u8, 105u8, 116u8];
    proof {
        reveal_strlit(".git");
        assert(git@ =~= dotgit());
    }
    let mut k: usize = 0;
    while k < segs.len()
        invariant
            k <= segs@.len(),
            git@ == dotgit(),
            crate::bytepath::views_of(segs@) == spec_split(rel@),
            forall|j: int| 0 <= j < k ==> spec_split(rel@)[j] != dotgit(),
        decreases segs@.len() - k,
    {
        if crate::bytepath::bytes_eq(&segs[k], &git) {
            proof {
                assert(spec_split(rel@)[k as int] == segs@[k as int]@);
                assert(spec_split(rel@).contains(dotgit()));
            }
            return true;
        }
        proof {
            assert(spec_split(rel@)[k as int] == segs@[k as int]@);
        }
        k = k + 1;
    }
    proof {
        assert(!spec_split(rel@).contains(dotgit())) by {
            if spec_split(rel@).contains(dotgit()) {
                let j = choose|j: int|
                    0 <= j < spec_split(rel@).len() && spec_split(rel@)[j] == dotgit();
            }
        }
    }
    false
}

/// The steps that carry one walked tree onto another root: each entry's path
/// relative to `from_root` is joined under `to_root`, directories are
/// created and files are copied, and — where `exclude_metadata` is set, as
/// copy-out sets it — any entry under a repository-metadata segment is left
/// behind. Copy-in is this plan over the destination's walk with the scratch
/// subtree as target; copy-out is the reverse walk with metadata excluded.
pub fn copy_plan(
    entries: &Vec<WalkEntry>,
    from_root: &Vec<u8>,
    to_root: &Vec<u8>,
    exclude_metadata: bool,
) -> (r: Vec<CopyStep>)
    requires
        forall|j: int|
            0 <= j < entries@.len() ==> spec_strip(
                from_root@,
                (#[trigger] entries@[j]).path@,
            ) is Some,
    ensures
        steps_view(r@) == copy_plan_view(entries@, from_root@, to_root@, exclude_metadata),
{
    let mut out: Vec<CopyStep> = Vec::new();
    let mut i: usize = 0;
    proof {
        assert(entries@.take(0) =~= Seq::<WalkEntry>::empty());
        assert(steps_view(out@) =~= copy_plan_view(
            entries@.take(0),
            from_root@,
            to_root@,
            exclude_metadata,
        ));
    }
    while i < entries.len()
        invariant
            i <= entries@.len(),
            forall|j: int|
                0 <= j < entries@.len() ==> spec_strip(
                    from_root@,
                    (#[trigger] entries@[j]).path@,
                ) is Some,
            steps_view(out@) == copy_plan_view(
                entries@.take(i as int),
                from_root@,
                to_root@,
                exclude_metadata,
            ),
        decreases entries@.len() - i,
    {
        let ghost prev_out = out@;
        let e = &entries[i];
        let rel = match strip_prefix(from_root, &e.path) {
            Some(rel) => rel,
            None => {
                // Unreachable: every entry lies under the walked root.
                proof {
                    assert(false);
                }
                Vec::new()
            },
        };
        if !(exclude_metadata && is_excluded(&rel)) {
            let to = join_path(to_root, &rel);
            out.push(CopyStep { from: clone_bytes(&e.path), to, is_dir: e.is_dir });
            proof {
                assert(steps_view(out@) =~= steps_view(prev_out) + seq![out@.last()@]);
            }
        }
        i = i + 1;
        proof {
            let taken = entries@.take(i as int);
            assert(taken.last() == entries@[i - 1]);
            assert(taken.drop_last() =~= entries@.take(i - 1));
            assert(steps_view(out@) =~= copy_plan_view(
                taken,
                from_root@,
                to_root@,
                exclude_metadata,
            ));
        }
    }
    proof {
        assert(entries@.take(i as int) =~= entries@);
    }
    out
}


/// The files of a destination tree after a plan's steps run in order: each
/// file step writes the source tree's content at its target, and a later
/// step wins.
pub open spec fn apply_steps(
    dest: Map<Seq<u8>, Seq<u8>>,
    steps: Seq<CopyStepView>,
    src: Map<Seq<u8>, Seq<u8>>,
) -> Map<Seq<u8>, Seq<u8>>
    decreases steps.len(),
{
    if steps.len() == 0 {
        dest
    } else {
        let prev = apply_steps(dest, steps.drop_last(), src);
        let s = steps.last();
        if s.is_dir {
            prev
        } else {
            prev.insert(s.to, src[s.from])
        }
    }
}

/// Whether the source file at `p` lands at `q` when a walk of `from_root` is
/// rebased under `to_root`.
pub open spec fn rebased_to(
    p: Seq<u8>,
    q: Seq<u8>,
    from_root: Seq<u8>,
    to_root: Seq<u8>,
    exclude_metadata: bool,
) -> bool {
    spec_strip(from_root, p) matches Some(rel) && !(exclude_metadata && excluded(rel)) && q
        == spec_join(to_root, rel)
}

/// The source tree's files rebased under `to_root`: each file's content at
/// its rebased path.
pub open spec fn rebase_files(
    src: Map<Seq<u8>, Seq<u8>>,
    from_root: Seq<u8>,
    to_root: Seq<u8>,
    exclude_metadata: bool,
) -> Map<Seq<u8>, Seq<u8>> {
    Map::new(
        |q: Seq<u8>|
            exists|p: Seq<u8>| #[trigger]
                rebased_to(p, q, from_root, to_root, exclude_metadata) && src.dom().contains(p),
        |q: Seq<u8>|
            src[choose|p: Seq<u8>| #[trigger]
                rebased_to(p, q, from_root, to_root, exclude_metadata) && src.dom().contains(p)],
    )
}

/// The rebased files of the walked entries themselves, a later entry
/// overriding an earlier one.
pub open spec fn entries_rebase(
    entries: Seq<WalkEntry>,
    src: Map<Seq<u8>, Seq<u8>>,
    from_root: Seq<u8>,
    to_root: Seq<u8>,
    exclude_metadata: bool,
) -> Map<Seq<u8>, Seq<u8>>
    decreases entries.len(),
{
    if entries.len() == 0 {
        Map::empty()
    } else {
        let m = entries_rebase(entries.drop_last(), src, from_root, to_root, exclude_metadata);
        match copy_step_for(entries.last(), from_root, to_root, exclude_metadata) {
            Some(s) => if s.is_dir {
                m
            } else {
                m.insert(s.to, src[s.from])
            },
            None => m,
        }
    }
}

/// Applying a walk's plan writes exactly the walked entries' rebased files
/// over the destination.
proof fn lemma_apply_plan(
    dest: Map<Seq<u8>, Seq<u8>>,
    entries: Seq<WalkEntry>,
    src: Map<Seq<u8>, Seq<u8>>,
    from_root: Seq<u8>,
    to_root: Seq<u8>,
    exclude_metadata: bool,
)
    ensures
        apply_steps(dest, copy_plan_view(entries, from_root, to_root, exclude_metadata), src)
            == dest.union_prefer_right(
            entries_rebase(entries, src, from_root, to_root, exclude_metadata),
        ),
    decreases entries.len(),
{
    let plan = copy_plan_view(entries, from_root, to_root, exclude_metadata);
    if entries.len() == 0 {
        assert(plan =~= Seq::<CopyStepView>::empty());
        assert(dest.union_prefer_right(Map::<Seq<u8>, Seq<u8>>::empty()) =~= dest);
    } else {
        let rest = entries.drop_last();
        lemma_apply_plan(dest, rest, src, from_root, to_root, exclude_metadata);
        let prev_plan = copy_plan_view(rest, from_root, to_root, exclude_metadata);
        let m = entries_rebase(rest, src, from_root, to_root, exclude_metadata);
        match copy_step_for(entries.last(), from_root, to_root, exclude_metadata) {
            Some(s) => {
                assert(plan == prev_plan + seq![s]);
                assert(plan.drop_last() =~= prev_plan);
                assert(plan.last() == s);
                if s.is_dir {
                } else {
                    assert(dest.union_prefer_right(m).insert(s.to, src[s.from])
                        =~= dest.union_prefer_right(m.insert(s.to, src[s.from])));
                }
            },
            None => {
            },
        }
    }
}

/// The rebased file of one walked file entry is in the walk's rebased files,
/// with its own content, as long as no two entries share a relative path.
proof fn lemma_entries_rebase_has(
    entries: Seq<WalkEntry>,
    src: Map<Seq<u8>, Seq<u8>>,
    from_root: Seq<u8>,
    to_root: Seq<u8>,
    exclude_metadata: bool,
    j: int,
)
    requires
        0 <= j < entries.len(),
        forall|j1: int, j2: int|
            0 <= j1 < j2 < entries.len() ==> spec_strip(from_root, entries[j1].path@)
                != spec_strip(from_root, entries[j2].path@),
        copy_step_for(entries[j], from_root, to_root, exclude_metadata) matches Some(s)
            && !s.is_dir,
    ensures
        ({
            let s = copy_step_for(entries[j], from_root, to_root, exclude_metadata)->Some_0;
            let m = entries_rebase(entries, src, from_root, to_root, exclude_metadata);
            m.dom().contains(s.to) && m[s.to] == src[s.from]
        }),
    decreases entries.len(),
{
    let s = copy_step_for(entries[j], from_root, to_root, exclude_metadata)->Some_0;
    if j == entries.len() - 1 {
        assert(entries.last() == entries[j]);
    } else {
        let rest = entries.drop_last();
        assert(rest[j] == entries[j]);
        assert forall|j1: int, j2: int| 0 <= j1 < j2 < rest.len() implies spec_strip(
            from_root,
            rest[j1].path@,
        ) != spec_strip(from_root, rest[j2].path@) by {
            assert(rest[j1] == entries[j1]);
            assert(rest[j2] == entries[j2]);
        }
        lemma_entries_rebase_has(rest, src, from_root, to_root, exclude_metadata, j);
        match copy_step_for(entries.last(), from_root, to_root, exclude_metadata) {
            Some(s2) => {
                if !s2.is_dir && s2.to == s.to {
                    // Two entries cannot rebase to one target: the joins
                    // agree, so the relative paths agree, against the
                    // distinctness of the walk.
                    let r1 = spec_strip(from_root, entries[j].path@)->Some_0;
                    let r2 = spec_strip(from_root, entries.last().path@)->Some_0;
                    lemma_join_injective(to_root, r1, r2);
                    assert(false);
                }
            },
            None => {
            },
        }
    }
}

/// Every file in the walk's rebased files comes from some walked source
/// file, with that file's content.
proof fn lemma_entries_rebase_sub(
    entries: Seq<WalkEntry>,
    src: Map<Seq<u8>, Seq<u8>>,
    from_root: Seq<u8>,
    to_root: Seq<u8>,
    exclude_metadata: bool,
    q: Seq<u8>,
)
    requires
        forall|j: int|
            0 <= j < entries.len() ==> (!(#[trigger] entries[j]).is_dir <==> src.dom().contains(
                entries[j].path@,
            )),
        entries_rebase(entries, src, from_root, to_root, exclude_metadata).dom().contains(q),
    ensures
        exists|p: Seq<u8>| #[trigger]
            rebased_to(p, q, from_root, to_root, exclude_metadata) && src.dom().contains(p)
                && entries_rebase(entries, src, from_root, to_root, exclude_metadata)[q] == src[p],
    decreases entries.len(),
{
    let m = entries_rebase(entries, src, from_root, to_root, exclude_metadata);
    let rest = entries.drop_last();
    let e = entries.last();
    match copy_step_for(e, from_root, to_root, exclude_metadata) {
        Some(s) => {
            if !s.is_dir && s.to == q {
                assert(entries[entries.len() - 1] == e);
                assert(rebased_to(e.path@, q, from_root, to_root, exclude_metadata));
                assert(src.dom().contains(e.path@));
                assert(m[q] == src[e.path@]);
            } else {
                assert forall|j: int| 0 <= j < rest.len() implies (!(#[trigger] rest[j]).is_dir
                    <==> src.dom().contains(rest[j].path@)) by {
                    assert(rest[j] == entries[j]);
                }
                lemma_entries_rebase_sub(rest, src, from_root, to_root, exclude_metadata, q);
            }
        },
        None => {
            assert forall|j: int| 0 <= j < rest.len() implies (!(#[trigger] rest[j]).is_dir
                <==> src.dom().contains(rest[j].path@)) by {
                assert(rest[j] == entries[j]);
            }
            lemma_entries_rebase_sub(rest, src, from_root, to_root, exclude_metadata, q);
        },
    }
}

/// The walked entries' rebased files are exactly the source tree's rebased
/// files, for a walk that is faithful to the source tree: every entry lies
/// under the walked root, an entry is a file exactly where the source tree
/// has its path, every source file is walked, and no two entries share a
/// relative path.
proof fn lemma_entries_rebase_exact(
    entries: Seq<WalkEntry>,
    src: Map<Seq<u8>, Seq<u8>>,
    from_root: Seq<u8>,
    to_root: Seq<u8>,
    exclude_metadata: bool,
)
    requires
        forall|j: int|
            0 <= j < entries.len() ==> spec_strip(
                from_root,
                (#[trigger] entries[j]).path@,
            ) is Some,
        forall|j: int|
            0 <= j < entries.len() ==> (!(#[trigger] entries[j]).is_dir <==> src.dom().contains(
                entries[j].path@,
            )),
        forall|p: Seq<u8>| #[trigger]
            src.dom().contains(p) ==> exists|j: int|
                0 <= j < entries.len() && (#[trigger] entries[j]).path@ == p,
        forall|j1: int, j2: int|
            0 <= j1 < j2 < entries.len() ==> spec_strip(from_root, entries[j1].path@)
                != spec_strip(from_root, entries[j2].path@),
    ensures
        entries_rebase(entries, src, from_root, to_root, exclude_metadata) == rebase_files(
            src,
            from_root,
            to_root,
            exclude_metadata,
        ),
{
    let er = entries_rebase(entries, src, from_root, to_root, exclude_metadata);
    let rf = rebase_files(src, from_root, to_root, exclude_metadata);
    assert forall|q: Seq<u8>| #[trigger] er.dom().contains(q) implies rf.dom().contains(q)
        && er[q] == rf[q] by {
        lemma_entries_rebase_sub(entries, src, from_root, to_root, exclude_metadata, q);
        let p = choose|p: Seq<u8>| #[trigger]
            rebased_to(p, q, from_root, to_root, exclude_metadata) && src.dom().contains(p)
                && er[q] == src[p];
        assert(rf.dom().contains(q));
        let p2 = choose|p2: Seq<u8>| #[trigger]
            rebased_to(p2, q, from_root, to_root, exclude_metadata) && src.dom().contains(p2);
        lemma_rebase_unique(entries, src, from_root, to_root, exclude_metadata, p, p2, q);
        assert(er[q] == rf[q]);
    }
    assert forall|q: Seq<u8>| #[trigger] rf.dom().contains(q) implies er.dom().contains(q) by {
        let p = choose|p: Seq<u8>| #[trigger]
            rebased_to(p, q, from_root, to_root, exclude_metadata) && src.dom().contains(p);
        let j = choose|j: int|
            0 <= j < entries.len() && (#[trigger] entries[j]).path@ == p;
        assert(copy_step_for(entries[j], from_root, to_root, exclude_metadata) matches Some(s)
            && !s.is_dir && s.to == q);
        lemma_entries_rebase_has(entries, src, from_root, to_root, exclude_metadata, j);
    }
    assert(er =~= rf);
}

/// Two walked source files that rebase to one target are the same file.
proof fn lemma_rebase_unique(
    entries: Seq<WalkEntry>,
    src: Map<Seq<u8>, Seq<u8>>,
    from_root: Seq<u8>,
    to_root: Seq<u8>,
    exclude_metadata: bool,
    p1: Seq<u8>,
    p2: Seq<u8>,
    q: Seq<u8>,
)
    requires
        forall|p: Seq<u8>| #[trigger]
            src.dom().contains(p) ==> exists|j: int|
                0 <= j < entries.len() && (#[trigger] entries[j]).path@ == p,
        forall|j1: int, j2: int|
            0 <= j1 < j2 < entries.len() ==> spec_strip(from_root, entries[j1].path@)
                != spec_strip(from_root, entries[j2].path@),
        rebased_to(p1, q, from_root, to_root, exclude_metadata),
        src.dom().contains(p1),
        rebased_to(p2, q, from_root, to_root, exclude_metadata),
        src.dom().contains(p2),
    ensures
        p1 == p2,
{
    let j1 = choose|j: int| 0 <= j < entries.len() && (#[trigger] entries[j]).path@ == p1;
    let j2 = choose|j: int| 0 <= j < entries.len() && (#[trigger] entries[j]).path@ == p2;
    let r1 = spec_strip(from_root, p1)->Some_0;
    let r2 = spec_strip(from_root, p2)->Some_0;
    lemma_join_injective(to_root, r1, r2);
    if j1 != j2 {
        assert(spec_strip(from_root, entries[j1].path@) == spec_strip(
            from_root,
            entries[j2].path@,
        ));
        assert(false);
    }
}

/// Running a faithful walk's copy plan rewrites the destination to exactly
/// the copy-back of the source tree's files rebased under the target root —
/// the map the session's atomicity and idempotence laws speak of. A faithful
/// walk lies under the walked root, flags a file exactly where the source
/// tree has one, reaches every source file, and never repeats a relative
/// path.
pub proof fn lemma_copy_plan_applies(
    dest: Map<Seq<u8>, Seq<u8>>,
    entries: Seq<WalkEntry>,
    src: Map<Seq<u8>, Seq<u8>>,
    from_root: Seq<u8>,
    to_root: Seq<u8>,
    exclude_metadata: bool,
)
    requires
        forall|j: int|
            0 <= j < entries.len() ==> spec_strip(
                from_root,
                (#[trigger] entries[j]).path@,
            ) is Some,
        forall|j: int|
            0 <= j < entries.len() ==> (!(#[trigger] entries[j]).is_dir <==> src.dom().contains(
                entries[j].path@,
            )),
        forall|p: Seq<u8>| #[trigger]
            src.dom().contains(p) ==> exists|j: int|
                0 <= j < entries.len() && (#[trigger] entries[j]).path@ == p,
        forall|j1: int, j2: int|
            0 <= j1 < j2 < entries.len() ==> spec_strip(from_root, entries[j1].path@)
                != spec_strip(from_root, entries[j2].path@),
    ensures
        apply_steps(dest, copy_plan_view(entries, from_root, to_root, exclude_metadata), src)
            == copy_back(dest, rebase_files(src, from_root, to_root, exclude_metadata)),
{
    lemma_apply_plan(dest, entries, src, from_root, to_root, exclude_metadata);
    lemma_entries_rebase_exact(entries, src, from_root, to_root, exclude_metadata);
}

/// Two source paths rebased to one target have the same suffix under the
/// walk root.
proof fn lemma_rebased_same(
    a: Seq<u8>,
    b: Seq<u8>,
    ex: bool,
    p1: Seq<u8>,
    p2: Seq<u8>,
    q: Seq<u8>,
)
    requires
        rebased_to(p1, q, a, b, ex),
        rebased_to(p2, q, a, b, ex),
    ensures
        spec_strip(a, p1) == spec_strip(a, p2),
{
    lemma_join_injective(b, spec_strip(a, p1)->Some_0, spec_strip(a, p2)->Some_0);
}

/// Rebasing distributes over an overlay, for trees whose paths are told
/// apart by their suffix under the walk root.
proof fn lemma_rebase_union(
    m1: Map<Seq<u8>, Seq<u8>>,
    m2: Map<Seq<u8>, Seq<u8>>,
    a: Seq<u8>,
    b: Seq<u8>,
    ex: bool,
)
    requires
        forall|p1: Seq<u8>, p2: Seq<u8>|
            #![trigger spec_strip(a, p1), spec_strip(a, p2)]
            (m1.dom().contains(p1) || m2.dom().contains(p1)) && (m1.dom().contains(p2)
                || m2.dom().contains(p2)) && spec_strip(a, p1) == spec_strip(a, p2) ==> p1 == p2,
    ensures
        rebase_files(m1.union_prefer_right(m2), a, b, ex) == rebase_files(m1, a, b, ex)
            .union_prefer_right(rebase_files(m2, a, b, ex)),
{
    let u = m1.union_prefer_right(m2);
    let l = rebase_files(u, a, b, ex);
    let r1 = rebase_files(m1, a, b, ex);
    let r2 = rebase_files(m2, a, b, ex);
    assert forall|q: Seq<u8>| #[trigger] l.dom().contains(q) implies r1.union_prefer_right(
        r2,
    ).dom().contains(q) && l[q] == r1.union_prefer_right(r2)[q] by {
        let p = choose|p: Seq<u8>| #[trigger]
            rebased_to(p, q, a, b, ex) && u.dom().contains(p);
        if m2.dom().contains(p) {
            assert(r2.dom().contains(q));
            let p2 = choose|p2: Seq<u8>| #[trigger]
                rebased_to(p2, q, a, b, ex) && m2.dom().contains(p2);
            lemma_rebased_same(a, b, ex, p, p2, q);
            assert(p2 == p);
            assert(l[q] == u[p]);
            assert(r2[q] == m2[p]);
        } else {
            assert(m1.dom().contains(p));
            assert(r1.dom().contains(q));
            assert(!r2.dom().contains(q)) by {
                if r2.dom().contains(q) {
                    let p2 = choose|p2: Seq<u8>| #[trigger]
                        rebased_to(p2, q, a, b, ex) && m2.dom().contains(p2);
                    lemma_rebased_same(a, b, ex, p, p2, q);
                }
            }
            let p1 = choose|p1: Seq<u8>| #[trigger]
                rebased_to(p1, q, a, b, ex) && m1.dom().contains(p1);
            lemma_rebased_same(a, b, ex, p, p1, q);
            assert(p1 == p);
            assert(l[q] == u[p]);
            assert(r1[q] == m1[p]);
        }
    }
    assert forall|q: Seq<u8>| #[trigger] r1.union_prefer_right(r2).dom().contains(q) implies
        l.dom().contains(q) by {
        if r2.dom().contains(q) {
            let p2 = choose|p2: Seq<u8>| #[trigger]
                rebased_to(p2, q, a, b, ex) && m2.dom().contains(p2);
            assert(u.dom().contains(p2));
        } else {
            let p1 = choose|p1: Seq<u8>| #[trigger]
                rebased_to(p1, q, a, b, ex) && m1.dom().contains(p1);
            assert(u.dom().contains(p1));
        }
    }
    assert(l =~= r1.union_prefer_right(r2));
}

/// Rebasing a tree under another root and back restores it exactly, for a
/// tree whose paths sit canonically under the first root, are told apart by
/// their suffixes, and carry no metadata segment.
proof fn lemma_rebase_inverse(src: Map<Seq<u8>, Seq<u8>>, a: Seq<u8>, b: Seq<u8>)
    requires
        forall|p: Seq<u8>| #[trigger]
            src.dom().contains(p) ==> (spec_strip(a, p) matches Some(rel) && (rel.len() > 0 || p
                == a) && !excluded(rel)),
        forall|p1: Seq<u8>, p2: Seq<u8>|
            #![trigger spec_strip(a, p1), spec_strip(a, p2)]
            src.dom().contains(p1) && src.dom().contains(p2) && spec_strip(a, p1) == spec_strip(
                a,
                p2,
            ) ==> p1 == p2,
    ensures
        rebase_files(rebase_files(src, a, b, false), b, a, true) == src,
{
    let mid = rebase_files(src, a, b, false);
    let back = rebase_files(mid, b, a, true);
    // Every intermediate path is the join of its own suffix under `b`.
    assert forall|m: Seq<u8>| #[trigger] mid.dom().contains(m) implies (spec_strip(
        b,
        m,
    ) matches Some(rel) && m == spec_join(b, rel) && exists|s0: Seq<u8>| #[trigger]
        rebased_to(s0, m, a, b, false) && src.dom().contains(s0)) by {
        let s0 = choose|s0: Seq<u8>| #[trigger]
            rebased_to(s0, m, a, b, false) && src.dom().contains(s0);
        lemma_join_strip(b, spec_strip(a, s0)->Some_0);
    }
    assert forall|d: Seq<u8>| #[trigger] back.dom().contains(d) implies src.dom().contains(d)
        && back[d] == src[d] by {
        let p = choose|p: Seq<u8>| #[trigger]
            rebased_to(p, d, b, a, true) && mid.dom().contains(p);
        let s0 = choose|s0: Seq<u8>| #[trigger]
            rebased_to(s0, p, a, b, false) && src.dom().contains(s0);
        lemma_join_strip(b, spec_strip(a, s0)->Some_0);
        lemma_strip_join(a, s0);
        assert(d == s0);
        // The intermediate value is the source's, by suffix distinctness.
        let s1 = choose|s1: Seq<u8>| #[trigger]
            rebased_to(s1, p, a, b, false) && src.dom().contains(s1);
        lemma_rebased_same(a, b, false, s0, s1, p);
        assert(s1 == s0);
        assert(mid[p] == src[s0]);
        // The chosen intermediate witness is `p` itself, as intermediate
        // paths are told apart by their suffix under `b`.
        let p2 = choose|p2: Seq<u8>| #[trigger]
            rebased_to(p2, d, b, a, true) && mid.dom().contains(p2);
        lemma_rebased_same(b, a, true, p, p2, d);
        assert(p2 == p) by {
            let t0 = choose|t0: Seq<u8>| #[trigger]
                rebased_to(t0, p2, a, b, false) && src.dom().contains(t0);
            lemma_join_strip(b, spec_strip(a, t0)->Some_0);
        }
        assert(back[d] == mid[p]);
    }
    assert forall|d: Seq<u8>| #[trigger] src.dom().contains(d) implies back.dom().contains(
        d,
    ) by {
        let rel = spec_strip(a, d)->Some_0;
        let p = spec_join(b, rel);
        assert(rebased_to(d, p, a, b, false));
        assert(mid.dom().contains(p));
        lemma_join_strip(b, rel);
        lemma_strip_join(a, d);
        assert(rebased_to(p, d, b, a, true));
    }
    assert(back =~= src);
}

/// Idempotence, composed at the plan level: copying the destination in over
/// the pristine tree and copying the unmutated result back out rewrites the
/// destination to exactly itself — provided every pristine path is covered
/// by the destination's rebased files, and the destination's paths sit
/// canonically under its root, are told apart by their suffixes, and carry
/// no metadata segment. (A pristine file absent from the destination would
/// be restored by the copy-out, so such inputs are left out.)
pub proof fn lemma_session_plans_idempotent(
    dest: Map<Seq<u8>, Seq<u8>>,
    pristine: Map<Seq<u8>, Seq<u8>>,
    local_root: Seq<u8>,
    scratch_root: Seq<u8>,
)
    requires
        forall|p: Seq<u8>| #[trigger]
            dest.dom().contains(p) ==> (spec_strip(local_root, p) matches Some(rel) && (rel.len()
                > 0 || p == local_root) && !excluded(rel)),
        forall|p1: Seq<u8>, p2: Seq<u8>|
            #![trigger spec_strip(local_root, p1), spec_strip(local_root, p2)]
            dest.dom().contains(p1) && dest.dom().contains(p2) && spec_strip(local_root, p1)
                == spec_strip(local_root, p2) ==> p1 == p2,
        pristine.dom().subset_of(
            rebase_files(dest, local_root, scratch_root, false).dom(),
        ),
    ensures
        copy_back(
            dest,
            rebase_files(
                copy_back(
                    pristine,
                    rebase_files(dest, local_root, scratch_root, false),
                ),
                scratch_root,
                local_root,
                true,
            ),
        ) == dest,
{
    let reb = rebase_files(dest, local_root, scratch_root, false);
    // Scratch paths are told apart by their suffix under the scratch root,
    // and the pristine paths are among them.
    assert forall|m: Seq<u8>| #[trigger] reb.dom().contains(m) implies (spec_strip(
        scratch_root,
        m,
    ) matches Some(rel) && m == spec_join(scratch_root, rel)) by {
        let s0 = choose|s0: Seq<u8>| #[trigger]
            rebased_to(s0, m, local_root, scratch_root, false) && dest.dom().contains(s0);
        lemma_join_strip(scratch_root, spec_strip(local_root, s0)->Some_0);
    }
    assert forall|p1: Seq<u8>, p2: Seq<u8>|
        #![trigger spec_strip(scratch_root, p1), spec_strip(scratch_root, p2)]
        (pristine.dom().contains(p1) || reb.dom().contains(p1)) && (pristine.dom().contains(p2)
            || reb.dom().contains(p2)) && spec_strip(scratch_root, p1) == spec_strip(
            scratch_root,
            p2,
        ) implies p1 == p2 by {
        assert(reb.dom().contains(p1));
        assert(reb.dom().contains(p2));
    }
    lemma_rebase_union(pristine, reb, scratch_root, local_root, true);
    lemma_rebase_inverse(dest, local_root, scratch_root);
    let back_p = rebase_files(pristine, scratch_root, local_root, true);
    assert forall|q: Seq<u8>| #[trigger] back_p.dom().contains(q) implies dest.dom().contains(
        q,
    ) by {
        let p = choose|p: Seq<u8>| #[trigger]
            rebased_to(p, q, scratch_root, local_root, true) && pristine.dom().contains(p);
        assert(reb.dom().contains(p));
        let d = choose|d: Seq<u8>| #[trigger]
            rebased_to(d, p, local_root, scratch_root, false) && dest.dom().contains(d);
        lemma_join_strip(scratch_root, spec_strip(local_root, d)->Some_0);
        lemma_strip_join(local_root, d);
        assert(q == d);
    }
    assert(copy_back(dest, back_p.union_prefer_right(dest)) =~= dest);
}

} // verus!
