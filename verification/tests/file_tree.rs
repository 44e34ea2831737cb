use docversion::files::{build_file_tree, get_file_type_from_path, FileNode, TreeEntry};

fn entry(path: &str, parent: &str, name: &str, is_dir: bool) -> TreeEntry {
    TreeEntry { path: path.to_string(), parent: Some(parent.to_string()), name: name.to_string(), is_dir }
}

fn names(ns: &[FileNode]) -> Vec<String> {
    ns.iter().map(|n| n.name.clone()).collect()
}

#[test]
fn file_type_from_path() {
    assert_eq!(get_file_type_from_path("a/B.MD"), "md");
    assert_eq!(get_file_type_from_path("a/folder"), "dir");
}

#[test]
fn tree_is_folders_first_then_names() {
    let root = "/r".to_string();
    let entries = vec![
        entry("/r/zeta.txt", "/r", "zeta.txt", false),
        entry("/r/docs", "/r", "docs", true),
        entry("/r/docs/b.md", "/r/docs", "b.md", false),
        entry("/r/docs/A.md", "/r/docs", "A.md", false),
        entry("/r/Alpha.rs", "/r", "Alpha.rs", false),
        entry("/r/image.png", "/r", "image.png", false),
        entry("/r/src", "/r", "src", true),
        entry("/r/docs/inner", "/r/docs", "inner", true),
    ];
    let tree = build_file_tree(&entries, &root);
    assert_eq!(names(&tree), vec!["docs", "src", "Alpha.rs", "zeta.txt"]);
    let docs = &tree[0];
    assert!(docs.is_dir);
    assert_eq!(docs.file_type, "dir");
    assert_eq!(names(&docs.children), vec!["inner", "A.md", "b.md"]);
    assert_eq!(docs.children[1].file_type, "md");
    assert_eq!(docs.children[1].path, "/r/docs/A.md");
    assert!(tree[1].children.is_empty());
    assert_eq!(tree[2].file_type, "rs");
}

#[test]
fn orphans_and_rootless_entries_are_left_out() {
    let root = "/r".to_string();
    let entries = vec![
        entry("/elsewhere/a.txt", "/elsewhere", "a.txt", false),
        TreeEntry { path: "/".to_string(), parent: None, name: "".to_string(), is_dir: true },
        entry("/r/b.txt", "/r", "b.txt", false),
    ];
    let tree = build_file_tree(&entries, &root);
    assert_eq!(names(&tree), vec!["b.txt"]);
}

#[test]
fn equal_names_keep_walk_order() {
    let root = "r".to_string();
    let entries = vec![entry("r/X.txt", "r", "X.txt", false), entry("r/x.txt", "r", "x.txt", false)];
    let tree = build_file_tree(&entries, &root);
    assert_eq!(names(&tree), vec!["X.txt", "x.txt"]);
}
