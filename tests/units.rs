use disk_walker::classify::{
    is_filtered_out_due_to_invert_regex, is_filtered_out_due_to_regex, is_ignored, Classification, WalkData,
};
use disk_walker::dedup::{clean_inodes, deduplicate};
use disk_walker::node::{build_node, children_size, copy_truncated, Metadata, Node};
use disk_walker::params::{compile_all, WalkParams};
use disk_walker::paths::{join_path, normalize_path};
use disk_walker::pattern::{any_match, Pattern};
use disk_walker::progress::{insert_distinct, ErrorHandler, ListingFailure, ProgressHandler};
use disk_walker::walk_manager::WalkManager;
use std::collections::HashSet;

fn leaf(name: &str, size: u64, id: Option<(u64, u64)>, depth: usize) -> Node {
    Node { name: name.to_string(), size, children: vec![], inode_device: id, depth }
}

fn dir(name: &str, own: u64, children: Vec<Node>, depth: usize) -> Node {
    let size = own + children.iter().map(|c| c.size).sum::<u64>();
    Node { name: name.to_string(), size, children, inode_device: None, depth }
}

#[test]
fn normalize_removes_repeated_and_trailing_separators() {
    assert_eq!(normalize_path("a//b/./c/"), "a/b/c");
    assert_eq!(normalize_path("/./a"), "/a");
    assert_eq!(normalize_path("//a///b"), "/a/b");
    assert_eq!(normalize_path("./a"), "./a");
    assert_eq!(normalize_path("a/../b"), "a/../b");
    assert_eq!(normalize_path("/"), "/");
    assert_eq!(normalize_path(""), "");
    assert_eq!(normalize_path("."), ".");
}

#[test]
fn join_path_cases() {
    assert_eq!(join_path("/r", "a"), "/r/a");
    assert_eq!(join_path("/r/", "a"), "/r/a");
    assert_eq!(join_path("/r", "/abs"), "/abs");
    assert_eq!(join_path("", "a"), "a");
}

#[test]
fn pattern_matches_unanchored() {
    let p = Pattern::new(r"\.log$").unwrap();
    assert_eq!(p.as_str(), r"\.log$");
    assert!(p.is_match("/d/app.log"));
    assert!(!p.is_match("/d/app.txt"));
    let q = Pattern::new("app").unwrap();
    assert!(q.is_match("/d/myapp.txt"));
}

#[test]
fn invalid_pattern_is_refused() {
    let e = Pattern::new("(unclosed").unwrap_err();
    assert_eq!(e.pattern, "(unclosed");
    assert!(!e.message.is_empty());
}

#[test]
fn compile_all_reports_first_bad_pattern() {
    let ok = compile_all(&Some(vec!["a".to_string(), "b+".to_string()])).unwrap();
    assert_eq!(ok.len(), 2);
    assert_eq!(ok[1].as_str(), "b+");
    assert!(compile_all(&None).unwrap().is_empty());
    let bad = compile_all(&Some(vec!["a".to_string(), "[".to_string()])).unwrap_err();
    assert_eq!(bad.pattern, "[");
}

#[test]
fn filter_functions() {
    let ps = vec![Pattern::new(r"\.log$").unwrap(), Pattern::new("tmp").unwrap()];
    assert!(!is_filtered_out_due_to_regex(&[], "/x"));
    assert!(!is_filtered_out_due_to_regex(&ps, "/x/a.log"));
    assert!(is_filtered_out_due_to_regex(&ps, "/x/a.txt"));
    assert!(!is_filtered_out_due_to_invert_regex(&[], "/x"));
    assert!(is_filtered_out_due_to_invert_regex(&ps, "/tmp/a"));
    assert!(any_match(&ps, "/tmp"));
    assert!(!any_match(&ps, "/var"));
    assert!(is_ignored(&["/a".to_string()], &"/a".to_string()));
    assert!(!is_ignored(&["/a".to_string()], &"/a/b".to_string()));
}

#[test]
fn classify_entries() {
    let data = WalkData {
        ignore_directories: vec!["/r/skip".to_string()],
        filter_regex: vec![Pattern::new(r"\.log$").unwrap()],
        invert_filter_regex: vec![Pattern::new("old").unwrap()],
        use_apparent_size: false,
    };
    assert_eq!(data.classify(&"/r/skip".to_string()), Classification::SkipEntirely);
    assert_eq!(data.classify(&"/r/skip/x.log".to_string()), Classification::MeasureFull);
    assert_eq!(data.classify(&"/r/a.txt".to_string()), Classification::MeasureZero);
    assert_eq!(data.classify(&"/r/old.log".to_string()), Classification::MeasureZero);
    assert_eq!(data.classify(&"/r/new.log".to_string()), Classification::MeasureFull);
}

#[test]
fn build_node_sizes() {
    let meta = Some(Metadata { size: 4, identity: Some((1, 2)) });
    let kids = vec![leaf("/r/a", 10, None, 1), leaf("/r/b", 5, None, 1)];
    let n = build_node("/r".to_string(), kids, &[], &[], false, false, 0, meta).unwrap();
    assert_eq!(n.size, 19);
    assert_eq!(n.inode_device, Some((1, 2)));
    assert_eq!(n.children.len(), 2);
    assert!(build_node("/r".to_string(), vec![], &[], &[], false, false, 0, None).is_none());
}

#[test]
fn build_node_filtered_keeps_children_sizes() {
    let ps = vec![Pattern::new(r"\.log$").unwrap()];
    let meta = Some(Metadata { size: 4, identity: None });
    let kids = vec![leaf("/r/a.log", 10, None, 1)];
    let n = build_node("/r".to_string(), kids, &ps, &[], false, false, 0, meta).unwrap();
    assert_eq!(n.size, 10);
}

#[test]
fn build_node_symlink_policy() {
    let meta = Some(Metadata { size: 9, identity: Some((1, 3)) });
    let n = build_node("/l".to_string(), vec![], &[], &[], false, true, 1, meta).unwrap();
    assert_eq!(n.size, 0);
    assert_eq!(n.inode_device, None);
    let m = build_node("/l".to_string(), vec![], &[], &[], true, true, 1, meta).unwrap();
    assert_eq!(m.size, 9);
    assert_eq!(m.inode_device, Some((1, 3)));
}

#[test]
fn build_node_refuses_overflow() {
    let meta = Some(Metadata { size: 2, identity: None });
    let kids = vec![leaf("/r/a", u64::MAX - 1, None, 1)];
    assert!(build_node("/r".to_string(), kids, &[], &[], false, false, 0, meta).is_none());
    let kids = vec![leaf("/r/a", u64::MAX, None, 1), leaf("/r/b", 1, None, 1)];
    assert_eq!(children_size(&kids), None);
    let kids = vec![leaf("/r/a", 3, None, 1), leaf("/r/b", 1, None, 1)];
    assert_eq!(children_size(&kids), Some(4));
}

#[test]
fn dedup_drops_later_sibling_with_same_identity() {
    let kids = vec![leaf("/r/x", 30, Some((1, 7)), 1), leaf("/r/y", 30, Some((1, 7)), 1), leaf("/r/z", 5, Some((1, 8)), 1)];
    let root = dir("/r", 2, kids, 0);
    assert_eq!(root.size, 67);
    let d = deduplicate(&root, false);
    assert_eq!(d.size, 37);
    assert_eq!(d.children.len(), 2);
    assert_eq!(d.children[0].name, "/r/x");
    assert_eq!(d.children[1].name, "/r/z");
    assert!(d.children.iter().all(|c| c.inode_device.is_none()));
    let a = deduplicate(&root, true);
    assert_eq!(a.size, 67);
    assert_eq!(a.children.len(), 3);
}

#[test]
fn dedup_recomputes_nested_sizes() {
    let a = dir("/r/a", 1, vec![leaf("/r/a/f", 10, Some((1, 1)), 2)], 1);
    let b = dir("/r/b", 1, vec![leaf("/r/b/g", 10, Some((1, 1)), 2), leaf("/r/b/h", 4, Some((1, 2)), 2)], 1);
    let root = dir("/r", 0, vec![a, b], 0);
    assert_eq!(root.size, 26);
    let d = deduplicate(&root, false);
    assert_eq!(d.size, 16);
    assert_eq!(d.children[0].size, 11);
    assert_eq!(d.children[1].size, 5);
}

#[test]
fn clean_inodes_uses_seen_set() {
    let mut seen: HashSet<u128> = HashSet::new();
    let x = leaf("/f", 3, Some((2, 5)), 0);
    let first = clean_inodes(&x, &mut seen, false);
    assert_eq!(first.unwrap().size, 3);
    assert_eq!(seen.len(), 1);
    assert!(clean_inodes(&x, &mut seen, false).is_none());
    assert!(clean_inodes(&x, &mut seen, true).is_some());
    let other = leaf("/g", 3, Some((5, 2)), 0);
    assert!(clean_inodes(&other, &mut seen, false).is_some());
}

#[test]
fn truncated_copy_keeps_sizes() {
    let a = dir("/r/a", 1, vec![leaf("/r/a/f", 10, None, 2)], 1);
    let root = dir("/r", 0, vec![a, leaf("/r/g", 3, None, 1)], 0);
    let t = copy_truncated(&root, Some(1));
    assert_eq!(t.size, 14);
    assert_eq!(t.children.len(), 2);
    assert!(t.children.iter().all(|c| c.children.is_empty()));
    assert_eq!(t.children[0].size, 11);
    let z = copy_truncated(&root, Some(0));
    assert!(z.children.is_empty());
    assert_eq!(z.size, 14);
    let deep = copy_truncated(&root, Some(100));
    assert_eq!(deep, copy_truncated(&root, None));
    assert_eq!(copy_truncated(&root, None), root);
}

#[test]
fn manager_truncated_and_full_reads() {
    let mut m = WalkManager::new();
    assert!(m.get_node().is_none());
    assert!(m.get_truncated_node(1).is_none());
    let a = dir("/r/a", 1, vec![leaf("/r/a/f", 10, None, 2)], 1);
    let root = dir("/r", 0, vec![a], 0);
    m.set_node(Some(root));
    let full = m.get_node().unwrap();
    let cut = m.get_truncated_node(1).unwrap();
    assert_eq!(full.size, cut.size);
    assert_eq!(full.children[0].children.len(), 1);
    assert!(cut.children[0].children.is_empty());
    assert_eq!(cut.children[0].size, 11);
    m.set_abort_flag(true);
    assert!(m.get_error_handler().abort);
    assert_eq!(m.get_node().unwrap(), full);
    m.set_abort_flag(false);
    assert!(!m.get_error_handler().abort);
    assert_eq!(m.get_progress_handler().num_files, 0);
}

#[test]
fn progress_counters() {
    let mut p = ProgressHandler::new();
    p.record_file(10);
    p.record_file(5);
    assert_eq!((p.num_files, p.total_file_size), (2, 15));
    p.record_file(u64::MAX);
    assert_eq!(p.total_file_size, u64::MAX);
    p.mark_complete();
    assert!(p.scan_complete);
    p.clear_state();
    assert_eq!((p.num_files, p.total_file_size, p.scan_complete), (0, 0, false));
}

#[test]
fn error_sets_stay_distinct() {
    let mut e = ErrorHandler::new();
    e.record_not_found("/a".to_string());
    e.record_not_found("/a".to_string());
    e.record_not_found("/b".to_string());
    assert_eq!(e.file_not_found, vec!["/a".to_string(), "/b".to_string()]);
    e.record_listing_failure(ListingFailure::Other("x".to_string()));
    e.record_listing_failure(ListingFailure::Other("x".to_string()));
    e.record_listing_failure(ListingFailure::NotFound("/c".to_string()));
    assert_eq!(e.unknown_error.len(), 1);
    assert_eq!(e.file_not_found.len(), 3);
    assert!(!e.no_permissions);
    e.record_listing_failure(ListingFailure::PermissionDenied);
    assert!(e.no_permissions);
    e.abort = true;
    e.clear_state();
    assert!(!e.no_permissions && e.file_not_found.is_empty() && e.unknown_error.is_empty());
    assert!(e.abort);
    let mut v = vec!["p".to_string()];
    insert_distinct(&mut v, "p".to_string());
    insert_distinct(&mut v, "q".to_string());
    assert_eq!(v, vec!["p".to_string(), "q".to_string()]);
}

#[test]
fn params_build_walk_data() {
    let params = WalkParams {
        target_directory: "/home//u/".to_string(),
        regex_filter: Some(vec![r"\.rs$".to_string()]),
        regex_invert_filter: None,
        ignore_directories: Some(vec!["target".to_string(), "/abs".to_string()]),
        use_apparent_size: true,
    };
    let (root, data) = WalkData::from_params(&params).unwrap();
    assert_eq!(root, "/home/u");
    assert_eq!(data.ignore_directories, vec!["/home/u/target".to_string(), "/abs".to_string()]);
    assert_eq!(data.filter_regex.len(), 1);
    assert!(data.invert_filter_regex.is_empty());
    assert!(data.use_apparent_size);
    let bad = WalkParams { regex_invert_filter: Some(vec!["(".to_string()]), ..params };
    assert_eq!(WalkData::from_params(&bad).err().unwrap().pattern, "(");
}
