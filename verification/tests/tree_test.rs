use mdlive::tree::{build_file_tree, FileInfo, TreeNode};

fn info(name: &str, modified: u64, created: u64) -> FileInfo {
    FileInfo { name: name.to_string(), modified, created }
}

fn names(nodes: &[TreeNode]) -> Vec<String> {
    nodes
        .iter()
        .map(|n| match n {
            TreeNode::Dir { name, .. } => format!("{name}/"),
            TreeNode::File { name, .. } => name.clone(),
        })
        .collect()
}

#[test]
fn flat_directory_is_sorted_case_insensitively() {
    let tree = build_file_tree(&[info("b.md", 1, 1), info("C.md", 2, 2), info("a.md", 3, 3)]);
    assert_eq!(names(&tree), vec!["a.md", "b.md", "C.md"]);
}

#[test]
fn directories_group_nested_files_with_timestamps() {
    let tree = build_file_tree(&[
        info("b.md", 1, 10),
        info("docs/guide.md", 5, 3),
        info("A.md", 2, 2),
        info("docs/intro.md", 7, 4),
    ]);
    assert_eq!(names(&tree), vec!["A.md", "b.md", "docs/"]);
    match &tree[2] {
        TreeNode::Dir { name, dir_path, children, modified, created } => {
            assert_eq!(name, "docs");
            assert_eq!(dir_path, "docs");
            assert_eq!(*modified, 7);
            assert_eq!(*created, 3);
            assert_eq!(names(children), vec!["guide.md", "intro.md"]);
            match &children[1] {
                TreeNode::File { path, modified, created, .. } => {
                    assert_eq!(path, "docs/intro.md");
                    assert_eq!(*modified, 7);
                    assert_eq!(*created, 4);
                }
                _ => panic!("expected a file"),
            }
        }
        _ => panic!("expected a directory"),
    }
    match &tree[0] {
        TreeNode::File { path, modified, created, .. } => {
            assert_eq!(path, "A.md");
            assert_eq!((*modified, *created), (2, 2));
        }
        _ => panic!("expected a file"),
    }
}

#[test]
fn deep_nesting_builds_nested_directories() {
    let tree = build_file_tree(&[info("a/b/c/d.md", 9, 8), info("a/x.md", 1, 1)]);
    assert_eq!(names(&tree), vec!["a/"]);
    let TreeNode::Dir { children, modified, created, .. } = &tree[0] else { panic!() };
    assert_eq!((*modified, *created), (9, 1));
    assert_eq!(names(children), vec!["b/", "x.md"]);
    let TreeNode::Dir { children: inner, dir_path, .. } = &children[0] else { panic!() };
    assert_eq!(dir_path, "a/b");
    let TreeNode::Dir { children: deepest, dir_path, .. } = &inner[0] else { panic!() };
    assert_eq!(dir_path, "a/b/c");
    let TreeNode::File { path, .. } = &deepest[0] else { panic!() };
    assert_eq!(path, "a/b/c/d.md");
}

#[test]
fn directory_sorts_before_file_of_same_name_and_last_record_wins() {
    let tree = build_file_tree(&[info("notes", 1, 1), info("notes/a.md", 2, 2), info("z.md", 1, 1), info("z.md", 5, 6)]);
    assert_eq!(names(&tree), vec!["notes/", "notes", "z.md", "z.md"]);
    let TreeNode::File { modified, created, .. } = &tree[2] else { panic!() };
    assert_eq!((*modified, *created), (5, 6));
}

#[test]
fn empty_input_gives_empty_tree_and_max_created_shows_zero() {
    assert!(build_file_tree(&[]).is_empty());
    let tree = build_file_tree(&[info("d/x.md", 4, u64::MAX)]);
    let TreeNode::Dir { modified, created, .. } = &tree[0] else { panic!() };
    assert_eq!((*modified, *created), (4, 0));
}
