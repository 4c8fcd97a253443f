//! Upstream trees and extraction plans.
//!
//! A revision's tree is modelled as an owned value: file entries carry their
//! content, directory entries carry their children, and anything else (such
//! as a link to another repository) is opaque. Extraction does not touch the
//! filesystem; it returns the exact sequence of actions that materializes a
//! subtree onto a destination directory.

use vstd::prelude::*;

use crate::bytepath::{clone_bytes, join_path, spec_join, spec_split, split_path, views_of};
use crate::errors::SubcopyError;

verus! {

/// A named entry of a tree.
pub struct TreeEntry {
    pub name: Vec<u8>,
    pub node: TreeNode,
}

/// One object of an upstream tree.
pub enum TreeNode {
    /// A file and its content.
    Blob { content: Vec<u8> },
    /// A directory and its entries.
    Tree { entries: Vec<TreeEntry> },
    /// Neither a file nor a directory (a link to another repository, say).
    Other,
}

/// One filesystem step of an extraction plan.
///
/// Open question, inherited knowingly: a written file carries default
/// permissions, and upstream mode bits and link targets are not represented
/// here, so they are not preserved.
#[derive(Debug, PartialEq, Eq)]
pub enum FsAction {
    /// Write `content` to the file at `path`.
    WriteFile { path: Vec<u8>, content: Vec<u8> },
    /// Create the directory at `path`.
    CreateDir { path: Vec<u8> },
}

/// The mathematical form of a filesystem step.
pub enum FsActionView {
    WriteFile { path: Seq<u8>, content: Seq<u8> },
    CreateDir { path: Seq<u8> },
}

impl View for FsAction {
    type V = FsActionView;

    open spec fn view(&self) -> FsActionView {
        match self {
            FsAction::WriteFile { path, content } => FsActionView::WriteFile {
                path: path@,
                content: content@,
            },
            FsAction::CreateDir { path } => FsActionView::CreateDir { path: path@ },
        }
    }
}

/// The views of a plan's actions.
pub open spec fn plan_view(s: Seq<FsAction>) -> Seq<FsActionView> {
    s.map_values(|a: FsAction| a@)
}

/// The first entry called `name`, as the upstream abstraction resolves a
/// path component.
pub open spec fn spec_find(entries: Seq<TreeEntry>, name: Seq<u8>) -> Option<TreeEntry>
    decreases entries.len(),
{
    if entries.len() == 0 {
        None
    } else if entries[0].name@ == name {
        Some(entries[0])
    } else {
        spec_find(entries.subrange(1, entries.len() as int), name)
    }
}

/// The node reached from `node` by descending along `segs`.
pub open spec fn spec_lookup(node: TreeNode, segs: Seq<Seq<u8>>) -> Option<TreeNode>
    decreases segs.len(),
{
    if segs.len() == 0 {
        Some(node)
    } else {
        match node {
            TreeNode::Tree { entries } => match spec_find(entries@, segs[0]) {
                Some(e) => spec_lookup(e.node, segs.subrange(1, segs.len() as int)),
                None => None,
            },
            _ => None,
        }
    }
}

/// The plan of a pre-order walk of `entries` rooted at `base`: files are
/// written, directories are created and descended into, opaque entries are
/// skipped, and the first entry whose name is not UTF-8 aborts the walk.
pub open spec fn spec_walk(entries: Seq<TreeEntry>, base: Seq<u8>) -> Result<
    Seq<FsActionView>,
    SubcopyError,
>
    decreases entries,
{
    if entries.len() == 0 {
        Ok(Seq::empty())
    } else {
        let e = entries[0];
        if !vstd::utf8::valid_utf8(e.name@) {
            Err(SubcopyError::NonUtf8Name)
        } else {
            let head: Result<Seq<FsActionView>, SubcopyError> = match e.node {
                TreeNode::Blob { content } => Ok(
                    seq![
                        FsActionView::WriteFile {
                            path: spec_join(base, e.name@),
                            content: content@,
                        },
                    ],
                ),
                TreeNode::Tree { entries: sub } => match spec_walk(
                    sub@,
                    spec_join(base, e.name@),
                ) {
                    Ok(acts) => Ok(
                        seq![FsActionView::CreateDir { path: spec_join(base, e.name@) }] + acts,
                    ),
                    Err(err) => Err(err),
                },
                TreeNode::Other => Ok(Seq::empty()),
            };
            match head {
                Ok(h) => match spec_walk(entries.subrange(1, entries.len() as int), base) {
                    Ok(rest) => Ok(h + rest),
                    Err(err) => Err(err),
                },
                Err(err) => Err(err),
            }
        }
    }
}

/// The plan that materializes `upstream_path` out of `root` onto
/// `local_path`: one file for a blob, named by the path's final segment; a
/// full walk for a directory; `PathNotFound` where the path is absent or
/// names an opaque object.
pub open spec fn spec_extract(
    root: TreeNode,
    upstream_path: Seq<u8>,
    local_path: Seq<u8>,
) -> Result<Seq<FsActionView>, SubcopyError> {
    let segs = spec_split(upstream_path);
    match spec_lookup(root, segs) {
        None => Err(SubcopyError::PathNotFound),
        Some(node) => {
            let name = segs.last();
            match node {
                TreeNode::Blob { content } => if vstd::utf8::valid_utf8(name) {
                    Ok(
                        seq![
                            FsActionView::WriteFile {
                                path: spec_join(local_path, name),
                                content: content@,
                            },
                        ],
                    )
                } else {
                    Err(SubcopyError::NonUtf8Name)
                },
                TreeNode::Tree { entries } => spec_walk(entries@, local_path),
                TreeNode::Other => Err(SubcopyError::PathNotFound),
            }
        },
    }
}

/// The file a plan leaves at each path once its actions run in order: a
/// later write wins.
pub open spec fn plan_files(actions: Seq<FsActionView>) -> Map<Seq<u8>, Seq<u8>>
    decreases actions.len(),
{
    if actions.len() == 0 {
        Map::empty()
    } else {
        let m = plan_files(actions.drop_last());
        match actions.last() {
            FsActionView::WriteFile { path, content } => m.insert(path, content),
            FsActionView::CreateDir { .. } => m,
        }
    }
}

/// The directories a plan creates.
pub open spec fn plan_dirs(actions: Seq<FsActionView>) -> Set<Seq<u8>>
    decreases actions.len(),
{
    if actions.len() == 0 {
        Set::empty()
    } else {
        let s = plan_dirs(actions.drop_last());
        match actions.last() {
            FsActionView::WriteFile { .. } => s,
            FsActionView::CreateDir { path } => s.insert(path),
        }
    }
}

/// The files of the subtree `entries` rebased under `base`: each file's
/// content at its joined path. Among entries of one name the later wins,
/// as the walk writes later entries later.
pub open spec fn tree_files(entries: Seq<TreeEntry>, base: Seq<u8>) -> Map<Seq<u8>, Seq<u8>>
    decreases entries,
{
    if entries.len() == 0 {
        Map::empty()
    } else {
        let e = entries[0];
        let head: Map<Seq<u8>, Seq<u8>> = match e.node {
            TreeNode::Blob { content } => Map::<Seq<u8>, Seq<u8>>::empty().insert(
                spec_join(base, e.name@),
                content@,
            ),
            TreeNode::Tree { entries: sub } => tree_files(sub@, spec_join(base, e.name@)),
            TreeNode::Other => Map::empty(),
        };
        head.union_prefer_right(tree_files(entries.subrange(1, entries.len() as int), base))
    }
}

/// The directories of the subtree `entries` rebased under `base`.
pub open spec fn tree_dirs(entries: Seq<TreeEntry>, base: Seq<u8>) -> Set<Seq<u8>>
    decreases entries,
{
    if entries.len() == 0 {
        Set::empty()
    } else {
        let e = entries[0];
        let head: Set<Seq<u8>> = match e.node {
            TreeNode::Tree { entries: sub } => tree_dirs(sub@, spec_join(base, e.name@)).insert(
                spec_join(base, e.name@),
            ),
            _ => Set::empty(),
        };
        head.union(tree_dirs(entries.subrange(1, entries.len() as int), base))
    }
}

/// Concatenated plans apply in order: the later plan's writes win.
proof fn lemma_plan_concat(a: Seq<FsActionView>, b: Seq<FsActionView>)
    ensures
        plan_files(a + b) == plan_files(a).union_prefer_right(plan_files(b)),
        plan_dirs(a + b) == plan_dirs(a).union(plan_dirs(b)),
    decreases b.len(),
{
    if b.len() == 0 {
        assert(a + b =~= a);
        assert(plan_files(a).union_prefer_right(plan_files(b)) =~= plan_files(a));
        assert(plan_dirs(a).union(plan_dirs(b)) =~= plan_dirs(a));
    } else {
        lemma_plan_concat(a, b.drop_last());
        assert((a + b).drop_last() =~= a + b.drop_last());
        assert((a + b).last() == b.last());
        match b.last() {
            FsActionView::WriteFile { path, content } => {
                assert(plan_files(a).union_prefer_right(plan_files(b.drop_last())).insert(
                    path,
                    content,
                ) =~= plan_files(a).union_prefer_right(
                    plan_files(b.drop_last()).insert(path, content),
                ));
            },
            FsActionView::CreateDir { path } => {
                assert(plan_dirs(a).union(plan_dirs(b.drop_last())).insert(path) =~= plan_dirs(
                    a,
                ).union(plan_dirs(b.drop_last()).insert(path)));
            },
        }
    }
}

/// A successful walk's plan writes exactly the subtree's files and creates
/// exactly its directories, rebased under the base: same relative paths,
/// same contents, no extras, no omissions.
pub proof fn lemma_walk_exact(entries: Seq<TreeEntry>, base: Seq<u8>)
    requires
        spec_walk(entries, base) is Ok,
    ensures
        plan_files(spec_walk(entries, base)->Ok_0) == tree_files(entries, base),
        plan_dirs(spec_walk(entries, base)->Ok_0) == tree_dirs(entries, base),
    decreases entries,
{
    reveal_with_fuel(plan_files, 3);
    reveal_with_fuel(plan_dirs, 3);
    if entries.len() == 0 {
        assert(plan_files(Seq::<FsActionView>::empty()) =~= tree_files(entries, base));
        assert(plan_dirs(Seq::<FsActionView>::empty()) =~= tree_dirs(entries, base));
    } else {
        let e = entries[0];
        let rest = entries.subrange(1, entries.len() as int);
        let rest_acts = spec_walk(rest, base)->Ok_0;
        lemma_walk_exact(rest, base);
        match e.node {
            TreeNode::Blob { content } => {
                let h = seq![
                    FsActionView::WriteFile { path: spec_join(base, e.name@), content: content@ },
                ];
                lemma_plan_concat(h, rest_acts);
                assert(h.drop_last() =~= Seq::<FsActionView>::empty());
                assert(plan_files(h) =~= Map::<Seq<u8>, Seq<u8>>::empty().insert(
                    spec_join(base, e.name@),
                    content@,
                ));
                assert(plan_dirs(h) =~= Set::<Seq<u8>>::empty());
                assert(plan_dirs(h).union(plan_dirs(rest_acts)) =~= tree_dirs(entries, base));
            },
            TreeNode::Tree { entries: sub } => {
                let jb = spec_join(base, e.name@);
                let subacts = spec_walk(sub@, jb)->Ok_0;
                lemma_walk_exact(sub@, jb);
                let d = seq![FsActionView::CreateDir { path: jb }];
                let h = d + subacts;
                lemma_plan_concat(d, subacts);
                lemma_plan_concat(h, rest_acts);
                assert(d.drop_last() =~= Seq::<FsActionView>::empty());
                assert(plan_files(d) =~= Map::<Seq<u8>, Seq<u8>>::empty());
                assert(plan_dirs(d) =~= Set::<Seq<u8>>::empty().insert(jb));
                assert(plan_files(h) =~= tree_files(sub@, jb));
                assert(plan_dirs(h) =~= tree_dirs(sub@, jb).insert(jb));
                assert(plan_files(h).union_prefer_right(plan_files(rest_acts)) =~= tree_files(
                    entries,
                    base,
                ));
                assert(plan_dirs(h).union(plan_dirs(rest_acts)) =~= tree_dirs(entries, base));
            },
            TreeNode::Other => {
                let h = Seq::<FsActionView>::empty();
                lemma_plan_concat(h, rest_acts);
                assert(Map::<Seq<u8>, Seq<u8>>::empty().union_prefer_right(
                    plan_files(rest_acts),
                ) =~= tree_files(entries, base));
                assert(Set::<Seq<u8>>::empty().union(plan_dirs(rest_acts)) =~= tree_dirs(
                    entries,
                    base,
                ));
            },
        }
    }
}

/// Extracting a path that names a file produces exactly one action: the
/// file's content, byte-identical, written at the destination joined with
/// the path's final segment.
pub proof fn lemma_extract_blob_exact(root: TreeNode, upstream_path: Seq<u8>, local_path: Seq<u8>)
    requires
        spec_lookup(root, spec_split(upstream_path)) matches Some(n) && n matches TreeNode::Blob {
            ..
        },
        spec_extract(root, upstream_path, local_path) is Ok,
    ensures
        spec_extract(root, upstream_path, local_path)->Ok_0 == seq![
            FsActionView::WriteFile {
                path: spec_join(local_path, spec_split(upstream_path).last()),
                content: (spec_lookup(root, spec_split(upstream_path))->Some_0)->content@,
            },
        ],
{
}

/// Extracting a path that names a directory produces a plan that writes
/// exactly the subtree's files and creates exactly its directories under the
/// destination: structurally and byte-for-byte identical, with no extras and
/// no omissions.
pub proof fn lemma_extract_tree_exact(root: TreeNode, upstream_path: Seq<u8>, local_path: Seq<u8>)
    requires
        spec_lookup(root, spec_split(upstream_path)) matches Some(n) && n matches TreeNode::Tree {
            ..
        },
        spec_extract(root, upstream_path, local_path) is Ok,
    ensures
        plan_files(spec_extract(root, upstream_path, local_path)->Ok_0) == tree_files(
            (spec_lookup(root, spec_split(upstream_path))->Some_0)->entries@,
            local_path,
        ),
        plan_dirs(spec_extract(root, upstream_path, local_path)->Ok_0) == tree_dirs(
            (spec_lookup(root, spec_split(upstream_path))->Some_0)->entries@,
            local_path,
        ),
{
    let node = spec_lookup(root, spec_split(upstream_path))->Some_0;
    lemma_walk_exact(node->entries@, local_path);
}

/// Whether `name` is valid UTF-8 text.
fn name_is_utf8(name: &Vec<u8>) -> (r: bool)
    ensures
        r == vstd::utf8::valid_utf8(name@),
{
    match crate::bytepath::path_to_string(name) {
        Ok(_) => true,
        Err(_) => false,
    }
}

/// Finds the first entry called `name`, as `spec_find` does.
fn find_entry(entries: &Vec<TreeEntry>, name: &Vec<u8>) -> (r: Option<usize>)
    ensures
        match r {
            Some(j) => j < entries@.len() && spec_find(entries@, name@) == Some(
                entries@[j as int],
            ),
            None => spec_find(entries@, name@) is None,
        },
{
    let mut j: usize = 0;
    proof {
        assert(entries@.subrange(0, entries@.len() as int) =~= entries@);
    }
    while j < entries.len()
        invariant
            j <= entries.len(),
            spec_find(entries@, name@) == spec_find(
                entries@.subrange(j as int, entries@.len() as int),
                name@,
            ),
        decreases entries@.len() - j,
    {
        let ghost scanned = entries@.subrange(j as int, entries@.len() as int);
        proof {
            assert(scanned[0] == entries@[j as int]);
        }
        if crate::bytepath::bytes_eq(&entries[j].name, name) {
            return Some(j);
        }
        j = j + 1;
        proof {
            assert(scanned.subrange(1, scanned.len() as int) =~= entries@.subrange(
                j as int,
                entries@.len() as int,
            ));
        }
    }
    proof {
        assert(entries@.subrange(j as int, entries@.len() as int) =~= Seq::<TreeEntry>::empty());
    }
    None
}

/// Resolves `segs` inside `root`.
fn lookup_node<'a>(root: &'a TreeNode, segs: &Vec<Vec<u8>>) -> (r: Option<&'a TreeNode>)
    ensures
        match r {
            Some(n) => spec_lookup(*root, views_of(segs@)) == Some(*n),
            None => spec_lookup(*root, views_of(segs@)) is None,
        },
{
    let ghost all = views_of(segs@);
    let mut cur: &TreeNode = root;
    let mut i: usize = 0;
    proof {
        assert(all.subrange(0, all.len() as int) =~= all);
    }
    while i < segs.len()
        invariant
            i <= segs.len(),
            all == views_of(segs@),
            spec_lookup(*root, all) == spec_lookup(*cur, all.subrange(i as int, all.len() as int)),
        decreases segs@.len() - i,
    {
        let ghost rest = all.subrange(i as int, all.len() as int);
        proof {
            assert(rest.len() == all.len() - i);
            assert(rest[0] == segs@[i as int]@);
        }
        match cur {
            TreeNode::Tree { entries } => {
                match find_entry(entries, &segs[i]) {
                    Some(j) => {
                        proof {
                            assert(rest.subrange(1, rest.len() as int) =~= all.subrange(
                                i as int + 1,
                                all.len() as int,
                            ));
                        }
                        cur = &entries[j].node;
                    },
                    None => {
                        return None;
                    },
                }
            },
            _ => {
                return None;
            },
        }
        i = i + 1;
    }
    proof {
        assert(all.subrange(i as int, all.len() as int) =~= Seq::<Seq<u8>>::empty());
    }
    Some(cur)
}

/// Plans the pre-order walk of `entries` rooted at `base`.
fn walk_tree(entries: &Vec<TreeEntry>, base: &Vec<u8>) -> (r: Result<Vec<FsAction>, SubcopyError>)
    ensures
        match r {
            Ok(plan) => spec_walk(entries@, base@) == Ok::<Seq<FsActionView>, SubcopyError>(
                plan_view(plan@),
            ),
            Err(e) => spec_walk(entries@, base@) == Err::<Seq<FsActionView>, SubcopyError>(e),
        },
    decreases entries@,
{
    let mut out: Vec<FsAction> = Vec::new();
    let mut i: usize = 0;
    proof {
        assert(entries@.subrange(0, entries@.len() as int) =~= entries@);
        assert(plan_view(out@) + spec_walk(entries@, base@)->Ok_0 =~= spec_walk(
            entries@,
            base@,
        )->Ok_0);
    }
    while i < entries.len()
        invariant
            i <= entries.len(),
            spec_walk(entries@, base@) == match spec_walk(
                entries@.subrange(i as int, entries@.len() as int),
                base@,
            ) {
                Ok(rest) => Ok::<Seq<FsActionView>, SubcopyError>(plan_view(out@) + rest),
                Err(e) => Err::<Seq<FsActionView>, SubcopyError>(e),
            },
        decreases entries@.len() - i,
    {
        let ghost rest_entries = entries@.subrange(i as int, entries@.len() as int);
        let ghost next_rest = entries@.subrange(i as int + 1, entries@.len() as int);
        let ghost prev_out = out@;
        proof {
            assert(rest_entries[0] == entries@[i as int]);
            assert(rest_entries.subrange(1, rest_entries.len() as int) =~= next_rest);
        }
        let e = &entries[i];
        if !name_is_utf8(&e.name) {
            return Err(SubcopyError::NonUtf8Name);
        }
        // The view sequence that this entry contributes to the plan.
        let ghost h: Seq<FsActionView>;
        match &e.node {
            TreeNode::Blob { content } => {
                let path = join_path(base, &e.name);
                out.push(FsAction::WriteFile { path, content: clone_bytes(content) });
                proof {
                    h = seq![
                        FsActionView::WriteFile {
                            path: spec_join(base@, entries@[i as int].name@),
                            content: entries@[i as int].node->content@,
                        },
                    ];
                    assert(plan_view(out@) =~= plan_view(prev_out) + h);
                }
            },
            TreeNode::Tree { entries: sub } => {
                proof {
                    assert(decreases_to!(entries@ => entries@[i as int]));
                    assert(decreases_to!(entries@[i as int] => entries@[i as int].node));
                }
                let sub_base = join_path(base, &e.name);
                match walk_tree(sub, &sub_base) {
                    Ok(mut subplan) => {
                        let ghost sub_view = plan_view(subplan@);
                        out.push(FsAction::CreateDir { path: sub_base });
                        let ghost mid_out = out@;
                        out.append(&mut subplan);
                        proof {
                            h = seq![
                                FsActionView::CreateDir {
                                    path: spec_join(base@, entries@[i as int].name@),
                                },
                            ] + sub_view;
                            assert(plan_view(mid_out) =~= plan_view(prev_out) + seq![
                                FsActionView::CreateDir {
                                    path: spec_join(base@, entries@[i as int].name@),
                                },
                            ]);
                            assert(plan_view(out@) =~= plan_view(mid_out) + sub_view);
                            assert(plan_view(out@) =~= plan_view(prev_out) + h);
                        }
                    },
                    Err(err) => {
                        return Err(err);
                    },
                }
            },
            TreeNode::Other => {
                proof {
                    h = Seq::<FsActionView>::empty();
                    assert(plan_view(out@) =~= plan_view(prev_out) + h);
                }
            },
        }
        i = i + 1;
        proof {
            // One unfolding of the walk at this entry, then reassociate the
            // concatenation so the invariant speaks of the new prefix.
            if spec_walk(next_rest, base@) is Ok {
                let r2 = spec_walk(next_rest, base@)->Ok_0;
                assert((plan_view(prev_out) + h) + r2 =~= plan_view(prev_out) + (h + r2));
            }
        }
    }
    proof {
        assert(entries@.subrange(i as int, entries@.len() as int) =~= Seq::<TreeEntry>::empty());
        assert(plan_view(out@) + Seq::<FsActionView>::empty() =~= plan_view(out@));
    }
    Ok(out)
}

/// Plans the extraction of `upstream_path` at revision-tree `root` onto the
/// destination directory `local_path`. No filesystem is touched: the caller
/// performs the returned actions in order, creating parent directories
/// before the files below them. A planning failure returns no actions at
/// all, so a destination is disturbed only by a plan that names every write.
pub fn extract(root: &TreeNode, upstream_path: &Vec<u8>, local_path: &Vec<u8>) -> (r: Result<
    Vec<FsAction>,
    SubcopyError,
>)
    ensures
        match r {
            Ok(plan) => spec_extract(*root, upstream_path@, local_path@) == Ok::<
                Seq<FsActionView>,
                SubcopyError,
            >(plan_view(plan@)),
            Err(e) => spec_extract(*root, upstream_path@, local_path@) == Err::<
                Seq<FsActionView>,
                SubcopyError,
            >(e),
        },
{
    let segs = split_path(upstream_path);
    let node = match lookup_node(root, &segs) {
        Some(n) => n,
        None => {
            return Err(SubcopyError::PathNotFound);
        },
    };
    match node {
        TreeNode::Blob { content } => {
            let name = &segs[segs.len() - 1];
            proof {
                assert(views_of(segs@).last() == segs@.last()@);
            }
            if !name_is_utf8(name) {
                return Err(SubcopyError::NonUtf8Name);
            }
            let path = join_path(local_path, name);
            let mut plan: Vec<FsAction> = Vec::new();
            plan.push(FsAction::WriteFile { path, content: clone_bytes(content) });
            proof {
                assert(plan_view(plan@) =~= seq![plan@.last()@]);
            }
            Ok(plan)
        },
        TreeNode::Tree { entries } => walk_tree(entries, local_path),
        TreeNode::Other => Err(SubcopyError::PathNotFound),
    }
}

} // verus!
