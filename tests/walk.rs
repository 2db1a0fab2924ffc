use disk_walker::classify::WalkData;
use disk_walker::node::{Metadata, Node};
use disk_walker::pattern::Pattern;
use disk_walker::progress::{ErrorHandler, ListingFailure, ProgressHandler};
use disk_walker::walk_manager::WalkManager;
use disk_walker::walker::{Action, DirEntry, EntryKind, Event, Listing, Walker};
use std::collections::HashMap;

enum Fake {
    Dir(Vec<String>),
    Locked,
    File(u64, Option<(u64, u64)>),
    Link(u64, Option<(u64, u64)>),
    /// Resolves to metadata but is neither a file nor a directory when listed.
    Device(u64),
}

struct FakeFs {
    items: HashMap<String, Fake>,
    dir_ids: HashMap<String, (u64, u64)>,
}

impl FakeFs {
    fn new() -> FakeFs {
        FakeFs { items: HashMap::new(), dir_ids: HashMap::new() }
    }

    fn dir(&mut self, path: &str, names: &[&str]) {
        let n = self.dir_ids.len() as u64;
        self.dir_ids.insert(path.to_string(), (9, 1000 + n));
        let kids = names.iter().map(|c| format!("{}/{}", path, c)).collect();
        self.items.insert(path.to_string(), Fake::Dir(kids));
    }

    fn file(&mut self, path: &str, size: u64, id: (u64, u64)) {
        self.items.insert(path.to_string(), Fake::File(size, Some(id)));
    }

    fn list(&self, path: &str) -> Listing {
        match self.items.get(path) {
            Some(Fake::Dir(kids)) => Listing::Entries(
                kids.iter()
                    .map(|k| {
                        let kind = match self.items.get(k) {
                            Some(Fake::Dir(_)) | Some(Fake::Locked) => Some(EntryKind::Directory),
                            Some(Fake::File(..)) => Some(EntryKind::File),
                            Some(Fake::Link(..)) => Some(EntryKind::Symlink),
                            Some(Fake::Device(_)) => Some(EntryKind::Directory),
                            None => None,
                        };
                        DirEntry::Entry { path: k.clone(), kind }
                    })
                    .collect(),
            ),
            Some(Fake::Locked) => Listing::Failed(ListingFailure::PermissionDenied),
            Some(Fake::Device(_)) => Listing::Missing,
            Some(_) => Listing::NotADirectory,
            None => Listing::Missing,
        }
    }

    fn stat(&self, path: &str) -> Option<Metadata> {
        match self.items.get(path) {
            Some(Fake::Dir(_)) => Some(Metadata { size: 0, identity: self.dir_ids.get(path).copied() }),
            Some(Fake::Locked) => Some(Metadata { size: 4096, identity: Some((9, 1)) }),
            Some(Fake::Device(s)) => Some(Metadata { size: *s, identity: None }),
            Some(Fake::File(s, id)) | Some(Fake::Link(s, id)) => Some(Metadata { size: *s, identity: *id }),
            None => None,
        }
    }
}

fn drive(fs: &FakeFs, root: &str, data: WalkData, errors: &mut ErrorHandler, progress: &mut ProgressHandler) -> Option<Node> {
    let (mut walker, mut action) = Walker::start(root.to_string(), data, errors);
    loop {
        action = match action {
            Action::Finish(r) => return r,
            Action::List(p) => walker.step(Event::Listed(fs.list(&p)), errors, progress),
            Action::Stat(ps) => {
                let metas = ps.iter().map(|p| fs.stat(p)).collect();
                walker.step(Event::Stats(metas), errors, progress)
            }
        };
    }
}

fn plain(apparent: bool) -> WalkData {
    WalkData {
        ignore_directories: vec![],
        filter_regex: vec![],
        invert_filter_regex: vec![],
        use_apparent_size: apparent,
    }
}

fn find<'a>(n: &'a Node, name: &str) -> Option<&'a Node> {
    if n.name == name {
        return Some(n);
    }
    n.children.iter().find_map(|c| find(c, name))
}

fn check_aggregated(n: &Node) -> bool {
    let sum: u64 = n.children.iter().map(|c| c.size).sum();
    n.size >= sum && n.inode_device.is_none() && n.children.iter().all(|c| c.depth == n.depth + 1 && check_aggregated(c))
}

fn hard_link_fs() -> FakeFs {
    let mut fs = FakeFs::new();
    fs.dir("/r", &["a", "b"]);
    fs.dir("/r/a", &["x.txt", "y.txt"]);
    fs.dir("/r/b", &["y.txt"]);
    fs.file("/r/a/x.txt", 100, (1, 1));
    fs.file("/r/a/y.txt", 50, (1, 2));
    fs.file("/r/b/y.txt", 50, (1, 2));
    fs
}

#[test]
fn hard_link_counted_once_with_allocated_size() {
    let fs = hard_link_fs();
    let mut errors = ErrorHandler::new();
    let mut progress = ProgressHandler::new();
    let tree = drive(&fs, "/r", plain(false), &mut errors, &mut progress).unwrap();
    assert_eq!(tree.size, 150);
    assert!(check_aggregated(&tree));
    let a = find(&tree, "/r/a").unwrap();
    let b = find(&tree, "/r/b").unwrap();
    assert_eq!(a.size + b.size, 150);
    let ys = [find(&tree, "/r/a/y.txt").is_some(), find(&tree, "/r/b/y.txt").is_some()];
    assert_eq!(ys.iter().filter(|x| **x).count(), 1);
    assert_eq!(progress.num_files, 3);
    assert_eq!(progress.total_file_size, 200);
}

#[test]
fn hard_link_counted_twice_with_apparent_size() {
    let fs = hard_link_fs();
    let mut errors = ErrorHandler::new();
    let mut progress = ProgressHandler::new();
    let tree = drive(&fs, "/r", plain(true), &mut errors, &mut progress).unwrap();
    assert_eq!(tree.size, 200);
    assert!(find(&tree, "/r/a/y.txt").is_some());
    assert!(find(&tree, "/r/b/y.txt").is_some());
}

#[test]
fn positive_filter_zeroes_unmatched_files() {
    let mut fs = FakeFs::new();
    fs.dir("/d", &["app.log", "app.txt"]);
    fs.file("/d/app.log", 10, (1, 1));
    fs.file("/d/app.txt", 20, (1, 2));
    let mut data = plain(false);
    data.filter_regex = vec![Pattern::new(r"\.log$").unwrap()];
    let mut errors = ErrorHandler::new();
    let mut progress = ProgressHandler::new();
    let tree = drive(&fs, "/d", data, &mut errors, &mut progress).unwrap();
    assert_eq!(tree.size, 10);
    assert_eq!(tree.children.len(), 2);
    assert_eq!(find(&tree, "/d/app.txt").unwrap().size, 0);
    assert_eq!(find(&tree, "/d/app.log").unwrap().size, 10);
}

#[test]
fn negative_filter_zeroes_matched_files() {
    let mut fs = FakeFs::new();
    fs.dir("/d", &["app.log", "app.txt"]);
    fs.file("/d/app.log", 10, (1, 1));
    fs.file("/d/app.txt", 20, (1, 2));
    let mut data = plain(false);
    data.invert_filter_regex = vec![Pattern::new("log").unwrap()];
    let mut errors = ErrorHandler::new();
    let mut progress = ProgressHandler::new();
    let tree = drive(&fs, "/d", data, &mut errors, &mut progress).unwrap();
    assert_eq!(tree.size, 20);
    assert_eq!(find(&tree, "/d/app.log").unwrap().size, 0);
}

#[test]
fn permission_denied_directory_is_empty_node() {
    let mut fs = FakeFs::new();
    fs.dir("/r", &["locked", "f"]);
    fs.items.insert("/r/locked".to_string(), Fake::Locked);
    fs.file("/r/f", 7, (1, 1));
    let mut errors = ErrorHandler::new();
    let mut progress = ProgressHandler::new();
    let tree = drive(&fs, "/r", plain(false), &mut errors, &mut progress).unwrap();
    let locked = find(&tree, "/r/locked").unwrap();
    assert_eq!(locked.size, 0);
    assert!(locked.children.is_empty());
    assert!(errors.no_permissions);
    assert!(errors.file_not_found.is_empty() && errors.unknown_error.is_empty());
    assert_eq!(tree.size, 7);
}

#[test]
fn abort_before_start_gives_no_tree() {
    let fs = hard_link_fs();
    let mut errors = ErrorHandler::new();
    errors.abort = true;
    let mut progress = ProgressHandler::new();
    assert!(drive(&fs, "/r", plain(false), &mut errors, &mut progress).is_none());
    assert_eq!(progress.num_files, 0);
}

#[test]
fn abort_after_completion_keeps_stored_tree() {
    let fs = hard_link_fs();
    let mut manager = WalkManager::new();
    let tree = drive(&fs, "/r", plain(false), &mut manager.errors, &mut manager.progress);
    manager.set_node(tree);
    manager.set_abort_flag(true);
    let stored = manager.get_node().unwrap();
    assert_eq!(stored.size, 150);
    assert!(manager.get_error_handler().abort);
}

#[test]
fn abort_mid_walk_gives_no_tree() {
    let fs = hard_link_fs();
    let mut errors = ErrorHandler::new();
    let mut progress = ProgressHandler::new();
    let (mut walker, first) = Walker::start("/r".to_string(), plain(false), &errors);
    assert!(matches!(first, Action::List(ref p) if p == "/r"));
    let mut action = walker.step(Event::Listed(fs.list("/r")), &mut errors, &mut progress);
    errors.abort = true;
    loop {
        action = match action {
            Action::Finish(r) => {
                assert!(r.is_none());
                break;
            }
            Action::List(p) => walker.step(Event::Listed(fs.list(&p)), &mut errors, &mut progress),
            Action::Stat(ps) => {
                let metas = ps.iter().map(|p| fs.stat(p)).collect();
                walker.step(Event::Stats(metas), &mut errors, &mut progress)
            }
        };
    }
}

#[test]
fn ignored_directory_is_absent() {
    let mut fs = hard_link_fs();
    fs.dir("/r", &["a", "b", "skip"]);
    fs.dir("/r/skip", &["big"]);
    fs.file("/r/skip/big", 1000, (1, 9));
    let mut data = plain(false);
    data.ignore_directories = vec!["/r/skip".to_string(), "/r/a/x.txt".to_string()];
    let mut errors = ErrorHandler::new();
    let mut progress = ProgressHandler::new();
    let tree = drive(&fs, "/r", data, &mut errors, &mut progress).unwrap();
    assert!(find(&tree, "/r/skip").is_none());
    assert!(find(&tree, "/r/skip/big").is_none());
    assert!(find(&tree, "/r/a/x.txt").is_none());
    assert_eq!(tree.size, 50);
}

#[test]
fn missing_and_other_failures_are_recorded() {
    let fs = FakeFs::new();
    let mut errors = ErrorHandler::new();
    let mut progress = ProgressHandler::new();
    let r = drive(&fs, "/nowhere", plain(false), &mut errors, &mut progress);
    assert!(r.is_none());
    assert_eq!(errors.file_not_found, vec!["/nowhere".to_string()]);

    let (mut walker, _) = Walker::start("/x".to_string(), plain(false), &errors);
    let a = walker.step(Event::Listed(Listing::Failed(ListingFailure::Other("boom".to_string()))), &mut errors, &mut progress);
    assert!(matches!(a, Action::Stat(ref ps) if ps.len() == 1 && ps[0] == "/x"));
    assert_eq!(errors.unknown_error, vec!["boom".to_string()]);
}

#[test]
fn unreadable_entry_sets_permission_flag() {
    let mut errors = ErrorHandler::new();
    let mut progress = ProgressHandler::new();
    let (mut walker, _) = Walker::start("/x".to_string(), plain(false), &errors);
    let a = walker.step(Event::Listed(Listing::Entries(vec![DirEntry::Unreadable])), &mut errors, &mut progress);
    assert!(errors.no_permissions);
    assert!(matches!(a, Action::Stat(_)));
    let done = walker.step(Event::Stats(vec![Some(Metadata { size: 4, identity: None })]), &mut errors, &mut progress);
    match done {
        Action::Finish(Some(n)) => {
            assert_eq!(n.size, 4);
            assert!(n.children.is_empty());
        }
        _ => panic!("walk should have finished"),
    }
}

#[test]
fn symlink_not_counted_without_apparent_size() {
    let mut fs = FakeFs::new();
    fs.dir("/r", &["l", "f"]);
    fs.items.insert("/r/l".to_string(), Fake::Link(30, Some((1, 5))));
    fs.file("/r/f", 5, (1, 5));
    let mut errors = ErrorHandler::new();
    let mut progress = ProgressHandler::new();
    let tree = drive(&fs, "/r", plain(false), &mut errors, &mut progress).unwrap();
    // The link neither counts nor takes part in deduplication.
    assert_eq!(tree.size, 5);
    assert_eq!(find(&tree, "/r/l").unwrap().size, 0);
    assert!(find(&tree, "/r/f").is_some());
    let tree2 = drive(&fs, "/r", plain(true), &mut ErrorHandler::new(), &mut ProgressHandler::new()).unwrap();
    assert_eq!(tree2.size, 35);
}

#[test]
fn depths_follow_levels() {
    let fs = hard_link_fs();
    let tree = drive(&fs, "/r", plain(true), &mut ErrorHandler::new(), &mut ProgressHandler::new()).unwrap();
    assert_eq!(tree.depth, 0);
    assert_eq!(find(&tree, "/r/a").unwrap().depth, 1);
    assert_eq!(find(&tree, "/r/a/x.txt").unwrap().depth, 2);
    assert!(check_aggregated(&tree));
}

#[test]
fn listing_asks_for_leaves_then_subdirectories() {
    let mut errors = ErrorHandler::new();
    let mut progress = ProgressHandler::new();
    let (mut walker, _) = Walker::start("/r".to_string(), plain(false), &errors);
    let listing = Listing::Entries(vec![
        DirEntry::Entry { path: "/r/d1".to_string(), kind: Some(EntryKind::Directory) },
        DirEntry::Entry { path: "/r/f".to_string(), kind: Some(EntryKind::File) },
        DirEntry::Entry { path: "/r/l".to_string(), kind: Some(EntryKind::Symlink) },
        DirEntry::Entry { path: "/r/d2".to_string(), kind: Some(EntryKind::Directory) },
        DirEntry::Entry { path: "/r/u".to_string(), kind: None },
    ]);
    match walker.step(Event::Listed(listing), &mut errors, &mut progress) {
        Action::Stat(ps) => assert_eq!(ps, vec!["/r/f".to_string(), "/r/l".to_string()]),
        _ => panic!("expected a metadata request"),
    }
    let metas = vec![Some(Metadata { size: 3, identity: None }), None];
    match walker.step(Event::Stats(metas), &mut errors, &mut progress) {
        Action::List(p) => assert_eq!(p, "/r/d2"),
        _ => panic!("expected a listing request"),
    }
    assert_eq!(progress.num_files, 1);
    assert_eq!(progress.total_file_size, 3);
    match walker.step(Event::Listed(Listing::Entries(vec![])), &mut errors, &mut progress) {
        Action::Stat(ps) => assert_eq!(ps, vec!["/r/d2".to_string()]),
        _ => panic!("expected the directory's own metadata request"),
    }
    match walker.step(Event::Stats(vec![Some(Metadata { size: 1, identity: None })]), &mut errors, &mut progress) {
        Action::List(p) => assert_eq!(p, "/r/d1"),
        _ => panic!("expected a listing request"),
    }
    walker.step(Event::Listed(Listing::Entries(vec![])), &mut errors, &mut progress);
    match walker.step(Event::Stats(vec![Some(Metadata { size: 2, identity: None })]), &mut errors, &mut progress) {
        Action::Stat(ps) => assert_eq!(ps, vec!["/r".to_string()]),
        _ => panic!("expected the root's own metadata request"),
    }
    match walker.step(Event::Stats(vec![Some(Metadata { size: 10, identity: None })]), &mut errors, &mut progress) {
        Action::Finish(Some(n)) => {
            assert_eq!(n.size, 16);
            assert_eq!(n.children.len(), 3);
        }
        _ => panic!("expected the finished tree"),
    }
}

#[test]
fn ignored_paths_are_never_requested() {
    let mut fs = hard_link_fs();
    fs.dir("/r", &["a", "b", "skip"]);
    fs.dir("/r/skip", &["big"]);
    fs.file("/r/skip/big", 1000, (1, 9));
    let mut data = plain(false);
    data.ignore_directories = vec!["/r/skip".to_string(), "/r/b/y.txt".to_string()];
    let mut errors = ErrorHandler::new();
    let mut progress = ProgressHandler::new();
    let (mut walker, mut action) = Walker::start("/r".to_string(), data, &errors);
    let mut requested: Vec<String> = vec![];
    let tree = loop {
        action = match action {
            Action::Finish(r) => break r,
            Action::List(p) => {
                requested.push(p.clone());
                walker.step(Event::Listed(fs.list(&p)), &mut errors, &mut progress)
            }
            Action::Stat(ps) => {
                requested.extend(ps.iter().cloned());
                let metas = ps.iter().map(|p| fs.stat(p)).collect();
                walker.step(Event::Stats(metas), &mut errors, &mut progress)
            }
        };
    };
    assert!(requested.iter().all(|p| p != "/r/skip" && p != "/r/skip/big" && p != "/r/b/y.txt"));
    let tree = tree.unwrap();
    assert_eq!(tree.size, 150);
    assert!(find(&tree, "/r/b/y.txt").is_none());
    assert!(find(&tree, "/r/a/y.txt").is_some());
}

#[test]
fn refused_root_is_empty_node_without_metadata() {
    let mut errors = ErrorHandler::new();
    let mut progress = ProgressHandler::new();
    let (mut walker, _) = Walker::start("/locked".to_string(), plain(false), &errors);
    let a = walker.step(Event::Listed(Listing::Failed(ListingFailure::PermissionDenied)), &mut errors, &mut progress);
    match a {
        Action::Finish(Some(n)) => {
            assert_eq!(n.name, "/locked");
            assert_eq!(n.size, 0);
            assert!(n.children.is_empty());
        }
        _ => panic!("a refused root should finish at once"),
    }
    assert!(errors.no_permissions);
    assert!(errors.file_not_found.is_empty() && errors.unknown_error.is_empty());
}

#[test]
fn missing_path_contributes_nothing() {
    let mut fs = FakeFs::new();
    fs.dir("/r", &["dev", "f"]);
    fs.items.insert("/r/dev".to_string(), Fake::Device(77));
    fs.file("/r/f", 5, (1, 1));
    let mut errors = ErrorHandler::new();
    let mut progress = ProgressHandler::new();
    let tree = drive(&fs, "/r", plain(false), &mut errors, &mut progress).unwrap();
    assert!(find(&tree, "/r/dev").is_none());
    assert_eq!(tree.size, 5);
    assert_eq!(errors.file_not_found, vec!["/r/dev".to_string()]);

    let mut fs2 = FakeFs::new();
    fs2.items.insert("/dev0".to_string(), Fake::Device(9));
    let mut errors2 = ErrorHandler::new();
    assert!(drive(&fs2, "/dev0", plain(false), &mut errors2, &mut ProgressHandler::new()).is_none());
    assert_eq!(errors2.file_not_found, vec!["/dev0".to_string()]);
}

#[test]
fn failures_other_than_permission_keep_own_size() {
    let mut errors = ErrorHandler::new();
    let mut progress = ProgressHandler::new();
    let (mut walker, _) = Walker::start("/x".to_string(), plain(false), &errors);
    let a = walker.step(
        Event::Listed(Listing::Failed(ListingFailure::NotFound("gone".to_string()))),
        &mut errors,
        &mut progress,
    );
    assert!(matches!(a, Action::Stat(_)));
    assert_eq!(errors.file_not_found, vec!["gone".to_string()]);
    assert!(errors.unknown_error.is_empty() && !errors.no_permissions);
    match walker.step(Event::Stats(vec![Some(Metadata { size: 8, identity: None })]), &mut errors, &mut progress) {
        Action::Finish(Some(n)) => {
            assert_eq!(n.size, 8);
            assert!(n.children.is_empty());
        }
        _ => panic!("walk should have finished"),
    }
}
