use std::collections::HashMap;

use git_subcopy::errors::SubcopyError;
use git_subcopy::mirror::{mirror_failure, MirrorAction, MirrorCache, MirrorStep};
use git_subcopy::session::{
    copy_plan, operation_outcome, session_step, CopyStep, SessionPhase, WalkEntry,
};

fn b(s: &str) -> Vec<u8> {
    s.as_bytes().to_vec()
}

fn file(path: &str) -> WalkEntry {
    WalkEntry { path: b(path), is_dir: false }
}

fn dir(path: &str) -> WalkEntry {
    WalkEntry { path: b(path), is_dir: true }
}

#[test]
fn mirror_path_is_the_encoded_url_under_the_cache() {
    let cache = MirrorCache::new(b("/home/user/.cache"));
    assert_eq!(cache.cache_dir, b("/home/user/.cache/git-subcopy"));
    // "abc" encodes to "YWJj".
    let plan = cache.fetch(&b("abc"), false);
    assert_eq!(plan.path, b("/home/user/.cache/git-subcopy/YWJj"));
    assert_eq!(plan.action, MirrorAction::CloneFresh);
}

#[test]
fn mirror_names_use_the_url_safe_alphabet_without_padding() {
    let cache = MirrorCache::new(b("/c"));
    // The bytes fb ef would encode to "++8=" in the standard alphabet.
    let plan = cache.fetch(&vec![0xfb, 0xef], true);
    assert_eq!(plan.path, b("/c/git-subcopy/--8"));
    assert_eq!(plan.action, MirrorAction::Refresh);
}

#[test]
fn same_url_text_always_gets_the_same_mirror() {
    let cache = MirrorCache::new(b("/c"));
    let one = cache.fetch(&b("https://example/repo.git"), false);
    let two = cache.fetch(&b("https://example/repo.git"), true);
    assert_eq!(one.path, two.path);
}

#[test]
fn mirror_failures_follow_the_taxonomy() {
    assert_eq!(mirror_failure(MirrorStep::OpenBare), SubcopyError::CorruptMirror);
    assert_eq!(mirror_failure(MirrorStep::FetchRefs), SubcopyError::Transport);
    assert_eq!(mirror_failure(MirrorStep::CloneRemote), SubcopyError::Transport);
}

#[test]
fn a_clean_session_passes_through_every_phase() {
    let order = [
        SessionPhase::CreateScratch,
        SessionPhase::FetchMirror,
        SessionPhase::CloneScratch,
        SessionPhase::AddRemote,
        SessionPhase::ResolveRevision,
        SessionPhase::ResetPristine,
        SessionPhase::CopyIn,
        SessionPhase::RunOperation,
        SessionPhase::CopyOut,
        SessionPhase::Cleanup { succeeded: true },
        SessionPhase::Done,
    ];
    let mut phase = order[0];
    for expected in &order[1..] {
        phase = session_step(phase, true);
        assert_eq!(phase, *expected);
    }
    assert_eq!(session_step(phase, true), SessionPhase::Done);
}

#[test]
fn a_failed_operation_skips_copy_out() {
    let phase = session_step(SessionPhase::RunOperation, false);
    assert_eq!(phase, SessionPhase::Cleanup { succeeded: false });
    assert_eq!(session_step(phase, true), SessionPhase::Failed);
}

#[test]
fn copy_out_is_entered_only_from_a_successful_operation() {
    let phases = [
        SessionPhase::CreateScratch,
        SessionPhase::FetchMirror,
        SessionPhase::CloneScratch,
        SessionPhase::AddRemote,
        SessionPhase::ResolveRevision,
        SessionPhase::ResetPristine,
        SessionPhase::CopyIn,
        SessionPhase::RunOperation,
        SessionPhase::CopyOut,
        SessionPhase::Cleanup { succeeded: true },
        SessionPhase::Cleanup { succeeded: false },
        SessionPhase::Done,
        SessionPhase::Failed,
    ];
    for phase in &phases {
        for ok in [true, false] {
            let next = session_step(*phase, ok);
            let allowed = *phase == SessionPhase::RunOperation && ok;
            assert_eq!(next == SessionPhase::CopyOut, allowed);
        }
    }
}

#[test]
fn a_failure_before_the_operation_cleans_up_and_fails() {
    for phase in [
        SessionPhase::FetchMirror,
        SessionPhase::CloneScratch,
        SessionPhase::AddRemote,
        SessionPhase::ResolveRevision,
        SessionPhase::ResetPristine,
        SessionPhase::CopyIn,
    ] {
        assert_eq!(session_step(phase, false), SessionPhase::Cleanup { succeeded: false });
    }
    assert_eq!(session_step(SessionPhase::CreateScratch, false), SessionPhase::Failed);
}

#[test]
fn operation_failure_is_a_subprocess_error() {
    assert_eq!(operation_outcome(true), Ok(()));
    assert_eq!(operation_outcome(false), Err(SubcopyError::Subprocess));
}

#[test]
fn copy_in_rebases_every_entry() {
    let entries = vec![
        dir("/repo/vendor/util"),
        file("/repo/vendor/util/a.txt"),
        dir("/repo/vendor/util/sub"),
        file("/repo/vendor/util/sub/b.txt"),
    ];
    let plan = copy_plan(&entries, &b("/repo/vendor/util"), &b("/tmp/scratch/lib/util"), false);
    assert_eq!(
        plan,
        vec![
            CopyStep { from: b("/repo/vendor/util"), to: b("/tmp/scratch/lib/util"), is_dir: true },
            CopyStep {
                from: b("/repo/vendor/util/a.txt"),
                to: b("/tmp/scratch/lib/util/a.txt"),
                is_dir: false,
            },
            CopyStep {
                from: b("/repo/vendor/util/sub"),
                to: b("/tmp/scratch/lib/util/sub"),
                is_dir: true,
            },
            CopyStep {
                from: b("/repo/vendor/util/sub/b.txt"),
                to: b("/tmp/scratch/lib/util/sub/b.txt"),
                is_dir: false,
            },
        ]
    );
}

#[test]
fn copy_out_leaves_repository_metadata_behind() {
    let entries = vec![
        dir("/tmp/scratch/lib/util"),
        dir("/tmp/scratch/lib/util/.git"),
        file("/tmp/scratch/lib/util/.git/config"),
        file("/tmp/scratch/lib/util/a.txt"),
    ];
    let plan = copy_plan(&entries, &b("/tmp/scratch/lib/util"), &b("/repo/vendor/util"), true);
    assert_eq!(
        plan,
        vec![
            CopyStep { from: b("/tmp/scratch/lib/util"), to: b("/repo/vendor/util"), is_dir: true },
            CopyStep {
                from: b("/tmp/scratch/lib/util/a.txt"),
                to: b("/repo/vendor/util/a.txt"),
                is_dir: false,
            },
        ]
    );
}

/// Runs a copy plan against file maps standing for two directory trees.
fn apply(
    plan: &[CopyStep],
    src: &HashMap<Vec<u8>, Vec<u8>>,
    dst: &mut HashMap<Vec<u8>, Vec<u8>>,
) {
    for step in plan {
        if !step.is_dir {
            dst.insert(step.to.clone(), src[&step.from].clone());
        }
    }
}

#[test]
fn a_session_without_mutation_leaves_the_destination_identical() {
    // The destination holds locally modified copies of both pristine files.
    let mut dest: HashMap<Vec<u8>, Vec<u8>> = HashMap::new();
    dest.insert(b("/repo/v/a.txt"), b("local a"));
    dest.insert(b("/repo/v/b.txt"), b("local b"));
    let before = dest.clone();

    // The scratch subtree starts as the pristine upstream content.
    let mut scratch: HashMap<Vec<u8>, Vec<u8>> = HashMap::new();
    scratch.insert(b("/tmp/s/lib/a.txt"), b("pristine a"));
    scratch.insert(b("/tmp/s/lib/b.txt"), b("pristine b"));

    // Copy-in: the destination's walk overlays the pristine tree.
    let walk_in = vec![dir("/repo/v"), file("/repo/v/a.txt"), file("/repo/v/b.txt")];
    let plan_in = copy_plan(&walk_in, &b("/repo/v"), &b("/tmp/s/lib"), false);
    apply(&plan_in, &dest, &mut scratch);

    // The interactive operation mutates nothing; copy-out runs.
    assert_eq!(session_step(SessionPhase::RunOperation, true), SessionPhase::CopyOut);
    let walk_out = vec![dir("/tmp/s/lib"), file("/tmp/s/lib/a.txt"), file("/tmp/s/lib/b.txt")];
    let plan_out = copy_plan(&walk_out, &b("/tmp/s/lib"), &b("/repo/v"), true);
    apply(&plan_out, &scratch, &mut dest);

    assert_eq!(dest, before);
}

#[test]
fn a_failed_session_never_reaches_the_destination() {
    let mut dest: HashMap<Vec<u8>, Vec<u8>> = HashMap::new();
    dest.insert(b("/repo/v/a.txt"), b("local a"));
    let before = dest.clone();

    // However the scratch tree was mangled, a failed operation goes straight
    // to cleanup: no copy-out plan is ever applied to the destination.
    let mut phase = session_step(SessionPhase::RunOperation, false);
    assert_eq!(phase, SessionPhase::Cleanup { succeeded: false });
    phase = session_step(phase, true);
    assert_eq!(phase, SessionPhase::Failed);
    assert_eq!(dest, before);
}
