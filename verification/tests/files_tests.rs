use dirkill::app::Registry;
use dirkill::files::{get_files, recursive_size, DeletionState, FsNode, FsNodeKind};

fn file(name: &str, size: u64) -> FsNode {
    FsNode { name: name.to_string(), kind: FsNodeKind::File { size } }
}

fn dir(name: &str, children: Vec<FsNode>) -> FsNode {
    FsNode { name: name.to_string(), kind: FsNodeKind::Dir { children } }
}

/// A reference recursive-size computation, written independently of the
/// library.
fn reference_size(node: &FsNode) -> u64 {
    match &node.kind {
        FsNodeKind::File { size } => *size,
        FsNodeKind::Dir { children } => children.iter().map(reference_size).sum(),
    }
}

#[test]
fn test_recursive_size() {
    let tree = dir(
        "src",
        vec![
            file("a.rs", 10),
            file("b.rs", 20),
            dir("sub", vec![file("c.rs", 30), dir("empty", vec![])]),
        ],
    );
    assert_eq!(recursive_size(&tree), 60);
    assert_eq!(recursive_size(&tree), reference_size(&tree));
}

#[test]
fn test_recursive_size_file_and_empty_dir() {
    assert_eq!(recursive_size(&file("lone", 7)), 7);
    assert_eq!(recursive_size(&dir("hollow", vec![])), 0);
}

#[test]
fn test_recursive_size_saturates() {
    let tree = dir("big", vec![file("x", u64::MAX), file("y", 5)]);
    assert_eq!(recursive_size(&tree), u64::MAX);
}

#[test]
fn test_scan_empty_tree_stays_empty() {
    let tree = dir("root", vec![dir("a", vec![file("f", 1)]), file("g", 2)]);
    let mut reg = Registry::new();
    assert!(reg.is_loading());
    get_files("node_modules", &tree, "root", &mut reg);
    assert_eq!(reg.len(), 0);
    assert!(!reg.is_loading());
}

#[test]
fn test_scan_finds_matches_in_order() {
    let tree = dir(
        "root",
        vec![
            dir("a", vec![dir("target_name", vec![file("data", 10)])]),
            dir("b", vec![dir("target_name", vec![file("data", 20)])]),
        ],
    );
    let mut reg = Registry::new();
    get_files("target_name", &tree, "root", &mut reg);
    assert_eq!(reg.len(), 2);
    assert_eq!(reg.entries[0].path, "root/a/target_name");
    assert_eq!(reg.entries[0].size, 10);
    assert_eq!(reg.entries[0].deletion_state, DeletionState::Ready);
    assert_eq!(reg.entries[1].path, "root/b/target_name");
    assert_eq!(reg.entries[1].size, 20);
    assert_ne!(reg.entries[0].id, reg.entries[1].id);
    assert!(!reg.is_loading());
}

#[test]
fn test_scan_prunes_nested_matches() {
    // A match containing a deeper match: only the outer one is reported.
    let inner = dir("target", vec![file("deep", 1)]);
    let outer = dir("target", vec![dir("mid", vec![inner]), file("pad", 2)]);
    let tree = dir("root", vec![outer]);
    let mut reg = Registry::new();
    get_files("target", &tree, "root", &mut reg);
    assert_eq!(reg.len(), 1);
    assert_eq!(reg.entries[0].path, "root/target");
    assert_eq!(reg.entries[0].size, 3);
}

#[test]
fn test_scan_root_match_is_single_entry() {
    let tree = dir("target", vec![dir("target", vec![file("f", 4)])]);
    let mut reg = Registry::new();
    get_files("target", &tree, "the/search/target", &mut reg);
    assert_eq!(reg.len(), 1);
    assert_eq!(reg.entries[0].path, "the/search/target");
    assert_eq!(reg.entries[0].size, 4);
}

#[test]
fn test_scan_ignores_files_named_like_target() {
    let tree = dir("root", vec![file("target", 9), dir("target", vec![file("f", 1)])]);
    let mut reg = Registry::new();
    get_files("target", &tree, "root", &mut reg);
    assert_eq!(reg.len(), 1);
    assert_eq!(reg.entries[0].path, "root/target");
    assert_eq!(reg.entries[0].size, 1);
}

#[test]
fn test_scan_no_entry_nests_under_another() {
    let tree = dir(
        "root",
        vec![
            dir("x", vec![dir("t", vec![file("a", 1)])]),
            dir("t", vec![file("b", 2)]),
            dir("y", vec![dir("x", vec![dir("t", vec![file("c", 3)])])]),
        ],
    );
    let mut reg = Registry::new();
    get_files("t", &tree, "root", &mut reg);
    let paths: Vec<&str> = reg.entries.iter().map(|e| e.path.as_str()).collect();
    for a in &paths {
        for b in &paths {
            if a != b {
                let nested = a.len() > b.len() && a.starts_with(b) && a.as_bytes()[b.len()] == b'/';
                assert!(!nested, "{} nests under {}", a, b);
            }
        }
    }
    assert_eq!(paths, vec!["root/x/t", "root/t", "root/y/x/t"]);
}
