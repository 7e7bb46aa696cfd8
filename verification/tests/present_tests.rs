use dirkill::app::Registry;
use dirkill::files::{get_files, DeletionState, FsNode, FsNodeKind};
use dirkill::present::{derive_rows, header_labels, id_at_visual, size_label, str_le};
use dirkill::Sorting;

fn file(name: &str, size: u64) -> FsNode {
    FsNode { name: name.to_string(), kind: FsNodeKind::File { size } }
}

fn dir(name: &str, children: Vec<FsNode>) -> FsNode {
    FsNode { name: name.to_string(), kind: FsNodeKind::Dir { children } }
}

fn scanned_pair() -> Registry {
    // root/a/target_name holds 10 bytes, root/b/target_name holds 20.
    let tree = dir(
        "root",
        vec![
            dir("a", vec![dir("target_name", vec![file("data", 10)])]),
            dir("b", vec![dir("target_name", vec![file("data", 20)])]),
        ],
    );
    let mut reg = Registry::new();
    get_files("target_name", &tree, "root", &mut reg);
    reg
}

#[test]
fn test_size_labels_carry_state_markers() {
    assert_eq!(size_label(10, DeletionState::Ready), "10 B");
    assert_eq!(size_label(2048, DeletionState::Ready), "2.0 KB");
    assert_eq!(size_label(5, DeletionState::Deleting), "5 B [DELETING...]");
    assert_eq!(size_label(5, DeletionState::Deleted), "[DELETED]");
    assert_eq!(size_label(5, DeletionState::Error), "5 B [ERROR DELETING]");
}

#[test]
fn test_str_le_is_lexicographic() {
    assert!(str_le("", "a"));
    assert!(str_le("abc", "abd"));
    assert!(str_le("abc", "abc"));
    assert!(str_le("ab", "abc"));
    assert!(!str_le("abd", "abc"));
    assert!(!str_le("b", "azzz"));
}

#[test]
fn test_size_sort_is_descending_by_default() {
    let reg = scanned_pair();
    let rows = derive_rows(&reg, Sorting::Size, false);
    assert_eq!(rows.len(), 2);
    assert_eq!(rows[0].path, "root/b/target_name");
    assert_eq!(rows[0].size_label, "20 B");
    assert_eq!(rows[1].path, "root/a/target_name");
    assert_eq!(rows[1].size_label, "10 B");
}

#[test]
fn test_size_sort_inverted_is_ascending() {
    let reg = scanned_pair();
    let rows = derive_rows(&reg, Sorting::Size, true);
    assert_eq!(rows[0].size_label, "10 B");
    assert_eq!(rows[1].size_label, "20 B");
}

#[test]
fn test_double_inversion_restores_order() {
    let reg = scanned_pair();
    let inverted = false;
    let before: Vec<u64> = derive_rows(&reg, Sorting::Size, inverted).iter().map(|r| r.id).collect();
    let toggled_twice = !!inverted;
    let after: Vec<u64> =
        derive_rows(&reg, Sorting::Size, toggled_twice).iter().map(|r| r.id).collect();
    assert_eq!(before, after);
}

#[test]
fn test_name_sort_orders_paths() {
    let mut reg = Registry::new();
    reg.append("root/c".to_string(), 1);
    reg.append("root/a".to_string(), 2);
    reg.append("root/b".to_string(), 3);
    let rows = derive_rows(&reg, Sorting::Name, false);
    let paths: Vec<&str> = rows.iter().map(|r| r.path.as_str()).collect();
    assert_eq!(paths, vec!["root/a", "root/b", "root/c"]);
    let rows = derive_rows(&reg, Sorting::Name, true);
    let paths: Vec<&str> = rows.iter().map(|r| r.path.as_str()).collect();
    assert_eq!(paths, vec!["root/c", "root/b", "root/a"]);
}

#[test]
fn test_unsorted_keeps_insertion_order() {
    let mut reg = Registry::new();
    reg.append("root/c".to_string(), 1);
    reg.append("root/a".to_string(), 2);
    let rows = derive_rows(&reg, Sorting::Unsorted, false);
    assert_eq!(rows[0].path, "root/c");
    assert_eq!(rows[1].path, "root/a");
    // Inversion flips the comparator, which for no key is a no-op.
    let rows = derive_rows(&reg, Sorting::Unsorted, true);
    assert_eq!(rows[0].path, "root/c");
    assert_eq!(rows[1].path, "root/a");
}

#[test]
fn test_equal_sizes_keep_insertion_order() {
    let mut reg = Registry::new();
    reg.append("root/first".to_string(), 5);
    reg.append("root/second".to_string(), 5);
    let rows = derive_rows(&reg, Sorting::Size, false);
    assert_eq!(rows[0].path, "root/first");
    assert_eq!(rows[1].path, "root/second");
}

#[test]
fn test_id_at_visual_follows_sort() {
    let reg = scanned_pair();
    let big = id_at_visual(&reg, Sorting::Size, false, 0).unwrap();
    assert_eq!(reg.entries[reg.find_index(big).unwrap()].size, 20);
    let small = id_at_visual(&reg, Sorting::Size, false, 1).unwrap();
    assert_eq!(reg.entries[reg.find_index(small).unwrap()].size, 10);
    assert!(id_at_visual(&reg, Sorting::Size, false, 2).is_none());
}

#[test]
fn test_header_marks_sort_key_and_loading() {
    let (path_h, size_h) = header_labels(Sorting::Name, true);
    assert_eq!(path_h, "> Path [LOADING]");
    assert_eq!(size_h, "Size");
    let (path_h, size_h) = header_labels(Sorting::Size, false);
    assert_eq!(path_h, "Path");
    assert_eq!(size_h, "> Size");
    let (path_h, size_h) = header_labels(Sorting::Unsorted, false);
    assert_eq!(path_h, "Path");
    assert_eq!(size_h, "Size");
}

#[test]
fn test_header_shows_no_loading_after_scan() {
    let tree = dir("root", vec![file("only", 1)]);
    let mut reg = Registry::new();
    get_files("node_modules", &tree, "root", &mut reg);
    assert_eq!(reg.len(), 0);
    let (path_h, _) = header_labels(Sorting::Name, reg.is_loading());
    assert!(!path_h.contains("[LOADING]"));
    assert_eq!(path_h, "> Path");
}

#[test]
fn test_rows_reflect_deletion_states() {
    let mut reg = Registry::new();
    let a = reg.append("root/a/t".to_string(), 1);
    let b = reg.append("root/b/t".to_string(), 2);
    reg.append("root/c/t".to_string(), 3);
    reg.request_delete(a);
    reg.request_delete(b);
    reg.finish_delete(b, true);
    let rows = derive_rows(&reg, Sorting::Unsorted, false);
    assert_eq!(rows[0].size_label, "1 B [DELETING...]");
    assert_eq!(rows[1].size_label, "[DELETED]");
    assert_eq!(rows[2].size_label, "3 B");
}
