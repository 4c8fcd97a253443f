use git_subcopy::errors::SubcopyError;
use git_subcopy::tree::{extract, FsAction, TreeEntry, TreeNode};

fn b(s: &str) -> Vec<u8> {
    s.as_bytes().to_vec()
}

fn blob(name: &str, content: &[u8]) -> TreeEntry {
    TreeEntry { name: b(name), node: TreeNode::Blob { content: content.to_vec() } }
}

fn dir(name: &str, entries: Vec<TreeEntry>) -> TreeEntry {
    TreeEntry { name: b(name), node: TreeNode::Tree { entries } }
}

/// A root tree holding `lib/util.rs`, `lib/sub/a.txt`, `lib/sub/b.txt`,
/// `README`, and a submodule-like opaque entry.
fn sample_root() -> TreeNode {
    TreeNode::Tree {
        entries: vec![
            dir(
                "lib",
                vec![
                    blob("util.rs", b"pub fn util() {}\n"),
                    dir("sub", vec![blob("a.txt", b"alpha"), blob("b.txt", b"beta")]),
                    TreeEntry { name: b("vendored"), node: TreeNode::Other },
                ],
            ),
            blob("README", b"read me"),
        ],
    }
}

#[test]
fn blob_extraction_writes_one_file() {
    let root = sample_root();
    let plan = extract(&root, &b("lib/util.rs"), &b("vendor")).unwrap();
    assert_eq!(
        plan,
        vec![FsAction::WriteFile { path: b("vendor/util.rs"), content: b"pub fn util() {}\n".to_vec() }]
    );
}

#[test]
fn blob_at_root_level() {
    let root = sample_root();
    let plan = extract(&root, &b("README"), &b("out")).unwrap();
    assert_eq!(plan, vec![FsAction::WriteFile { path: b("out/README"), content: b"read me".to_vec() }]);
}

#[test]
fn tree_extraction_mirrors_subtree_in_preorder() {
    let root = sample_root();
    let plan = extract(&root, &b("lib"), &b("vendor/lib")).unwrap();
    assert_eq!(
        plan,
        vec![
            FsAction::WriteFile { path: b("vendor/lib/util.rs"), content: b"pub fn util() {}\n".to_vec() },
            FsAction::CreateDir { path: b("vendor/lib/sub") },
            FsAction::WriteFile { path: b("vendor/lib/sub/a.txt"), content: b"alpha".to_vec() },
            FsAction::WriteFile { path: b("vendor/lib/sub/b.txt"), content: b"beta".to_vec() },
        ]
    );
}

#[test]
fn nested_path_lookup() {
    let root = sample_root();
    let plan = extract(&root, &b("lib/sub/b.txt"), &b("x")).unwrap();
    assert_eq!(plan, vec![FsAction::WriteFile { path: b("x/b.txt"), content: b"beta".to_vec() }]);
}

#[test]
fn missing_path_is_path_not_found() {
    let root = sample_root();
    assert_eq!(extract(&root, &b("lib/nope"), &b("x")), Err(SubcopyError::PathNotFound));
    assert_eq!(extract(&root, &b("absent/deep"), &b("x")), Err(SubcopyError::PathNotFound));
}

#[test]
fn path_through_a_file_is_not_found() {
    let root = sample_root();
    assert_eq!(extract(&root, &b("README/inside"), &b("x")), Err(SubcopyError::PathNotFound));
}

#[test]
fn opaque_object_at_path_is_not_found() {
    let root = sample_root();
    assert_eq!(extract(&root, &b("lib/vendored"), &b("x")), Err(SubcopyError::PathNotFound));
}

#[test]
fn non_utf8_entry_name_aborts_walk() {
    let bad = TreeNode::Tree {
        entries: vec![
            blob("fine", b"ok"),
            TreeEntry { name: vec![0xff, 0xfe], node: TreeNode::Blob { content: b"?".to_vec() } },
            blob("after", b"unreached"),
        ],
    };
    let root = TreeNode::Tree { entries: vec![TreeEntry { name: b("d"), node: bad }] };
    assert_eq!(extract(&root, &b("d"), &b("x")), Err(SubcopyError::NonUtf8Name));
}

#[test]
fn empty_directory_yields_empty_plan() {
    let root = TreeNode::Tree {
        entries: vec![TreeEntry { name: b("empty"), node: TreeNode::Tree { entries: vec![] } }],
    };
    let plan = extract(&root, &b("empty"), &b("x")).unwrap();
    assert_eq!(plan, vec![]);
}

#[test]
fn opaque_entries_inside_a_tree_are_skipped() {
    let root = TreeNode::Tree {
        entries: vec![dir(
            "d",
            vec![
                TreeEntry { name: b("link"), node: TreeNode::Other },
                blob("kept", b"kept"),
            ],
        )],
    };
    let plan = extract(&root, &b("d"), &b("x")).unwrap();
    assert_eq!(plan, vec![FsAction::WriteFile { path: b("x/kept"), content: b"kept".to_vec() }]);
}
