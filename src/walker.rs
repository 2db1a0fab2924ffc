use crate::classify::{ignored, is_ignored, WalkData};
use crate::dedup::{deduped, deduplicate, lemma_deduped_childless, lemma_deduped_shape};
use crate::node::{aggregated, avoids, avoids_below, build_node, buildable, built_as, depths_consistent,
    lemma_sizes_sum_nonneg, lemma_sizes_sum_push, own_contribution, own_size, sizes_sum, Metadata, Node};
use crate::progress::{saturating_u64, saturating_usize, texts, ErrorHandler, ListingFailure, ProgressHandler};
use vstd::prelude::*;

verus! {

/// Type of a listed entry, as the listing reports it (links not followed).
#[derive(Debug, PartialEq, Eq, Clone, Copy, Structural)]
pub enum EntryKind {
    Directory,
    File,
    Symlink,
}

/// One item of a directory listing.
#[derive(Debug)]
pub enum DirEntry {
    /// An entry with its full path, and its type when that could be read.
    Entry { path: String, kind: Option<EntryKind> },
    /// An entry the listing could not read.
    Unreadable,
}

/// What listing a directory gave.
#[derive(Debug)]
pub enum Listing {
    Entries(Vec<DirEntry>),
    Failed(ListingFailure),
    /// The path is a file.
    NotADirectory,
    /// The path is neither a file nor a directory.
    Missing,
}

/// Outside work the walk asks of its driver.
#[derive(Debug)]
pub enum Action {
    /// List this directory and answer with `Event::Listed`.
    List(String),
    /// Resolve the metadata of these paths (independent of each other) and
    /// answer with `Event::Stats`, one result per path, in order.
    Stat(Vec<String>),
    /// The walk is over, with its tree; `None` when it was aborted or the
    /// root could not be measured.
    Finish(Option<Node>),
}

/// What the driver hands back after doing an `Action`.
#[derive(Debug)]
pub enum Event {
    Listed(Listing),
    Stats(Vec<Option<Metadata>>),
}

/// A finished node of a frame at depth `k`: sized from its children, free
/// of ignored paths, with consistent depths.
pub open spec fn placed_child(c: Node, k: int, data: WalkData) -> bool {
    &&& aggregated(c)
    &&& avoids(c, data.ignore_directories@)
    &&& c.depth == k + 1
    &&& depths_consistent(c)
    &&& built_tree(c, data)
}

/// Every node of the tree was made by the walk: built from some metadata
/// (its size is its own contribution plus its children's sizes), or placed
/// with size zero for a directory that may not be read.
pub open spec fn built_tree(n: Node, data: WalkData) -> bool
    decreases n,
{
    &&& (exists|m: Metadata, is_symlink: bool|
        #[trigger] built_as(
            n,
            n.name@,
            n.children@,
            m,
            data.filter_regex@,
            data.invert_filter_regex@,
            data.use_apparent_size,
            is_symlink,
            n.depth,
        )) || unreadable_dir_node(n, n.name@, n.depth as int)
    &&& forall|i: int| #![trigger n.children@[i]] 0 <= i < n.children@.len() ==> built_tree(n.children@[i], data)
}

/// What a finished walk hands out: the root's node, the deduplicated copy
/// of a tree the walk built, with no ignored path below it.
pub open spec fn finished_tree(n: Node, root: Seq<char>, data: WalkData) -> bool {
    &&& n.name@ == root
    &&& n.depth == 0
    &&& n.inode_device is None
    &&& aggregated(n)
    &&& depths_consistent(n)
    &&& avoids_below(n, data.ignore_directories@)
    &&& exists|b: Node| built_tree(b, data) && #[trigger] deduped(n, b, Set::empty(), data.use_apparent_size)
}

/// The texts of a list of leaves.
pub open spec fn leaf_views(l: Seq<(String, bool)>) -> Seq<(Seq<char>, bool)> {
    l.map_values(|x: (String, bool)| (x.0@, x.1))
}

/// The paths of a list of leaves.
pub open spec fn leaf_paths(l: Seq<(Seq<char>, bool)>) -> Seq<Seq<char>> {
    l.map_values(|x: (Seq<char>, bool)| x.0)
}

/// The texts of a sequence of strings.
pub open spec fn views(v: Seq<String>) -> Seq<Seq<char>> {
    v.map_values(|p: String| p@)
}

/// The listed entries that become leaves (files and symlinks), in order,
/// each with whether it is a symlink. Ignored entries are left out.
pub open spec fn leaf_entries(es: Seq<DirEntry>, ignore: Seq<String>) -> Seq<(Seq<char>, bool)>
    decreases es.len(),
{
    if es.len() == 0 {
        Seq::empty()
    } else {
        let prev = leaf_entries(es.drop_last(), ignore);
        match es.last() {
            DirEntry::Entry { path, kind } => if ignored(ignore, path@) {
                prev
            } else {
                match kind {
                    Some(EntryKind::File) => prev.push((path@, false)),
                    Some(EntryKind::Symlink) => prev.push((path@, true)),
                    _ => prev,
                }
            },
            DirEntry::Unreadable => prev,
        }
    }
}

/// The listed subdirectories that are not ignored, in order.
pub open spec fn subdir_entries(es: Seq<DirEntry>, ignore: Seq<String>) -> Seq<Seq<char>>
    decreases es.len(),
{
    if es.len() == 0 {
        Seq::empty()
    } else {
        let prev = subdir_entries(es.drop_last(), ignore);
        match es.last() {
            DirEntry::Entry { path, kind } => if !ignored(ignore, path@) && kind == Some(
                EntryKind::Directory,
            ) {
                prev.push(path@)
            } else {
                prev
            },
            DirEntry::Unreadable => prev,
        }
    }
}

/// The answer for the `j`-th path of a metadata request; a missing answer
/// counts as a failure.
pub open spec fn meta_at(metas: Seq<Option<Metadata>>, j: int) -> Option<Metadata> {
    if 0 <= j < metas.len() {
        metas[j]
    } else {
        None
    }
}

/// How many of the first `k` answers hold metadata.
pub open spec fn present_count(metas: Seq<Option<Metadata>>, k: int) -> int
    decreases k,
{
    if k <= 0 {
        0
    } else {
        present_count(metas, k - 1) + if meta_at(metas, k - 1) is Some {
            1int
        } else {
            0
        }
    }
}

/// `cs` are the leaf nodes built, in order, for the first `k` leaves from
/// their answers: one per leaf whose metadata came, none for the others.
pub open spec fn leaves_built(
    cs: Seq<Node>,
    leaves: Seq<(Seq<char>, bool)>,
    metas: Seq<Option<Metadata>>,
    k: int,
    data: WalkData,
    depth: usize,
) -> bool
    decreases k,
{
    if k <= 0 {
        cs.len() == 0
    } else {
        match meta_at(metas, k - 1) {
            Some(m) => {
                &&& cs.len() > 0
                &&& leaves_built(cs.drop_last(), leaves, metas, k - 1, data, depth)
                &&& built_as(
                    cs.last(),
                    leaves[k - 1].0,
                    Seq::empty(),
                    m,
                    data.filter_regex@,
                    data.invert_filter_regex@,
                    data.use_apparent_size,
                    leaves[k - 1].1,
                    depth,
                )
            },
            None => leaves_built(cs, leaves, metas, k - 1, data, depth),
        }
    }
}

proof fn lemma_present_count_nonneg(metas: Seq<Option<Metadata>>, k: int)
    ensures
        0 <= present_count(metas, k),
    decreases k,
{
    if k > 0 {
        lemma_present_count_nonneg(metas, k - 1);
    }
}

/// A directory that has been listed and whose node is not built yet.
struct Frame {
    path: String,
    depth: usize,
    /// Subdirectories still to visit.
    pending: Vec<String>,
    /// Nodes already built for its entries.
    children: Vec<Node>,
}

enum Stage {
    /// Waiting for the listing of the top frame.
    Listing,
    /// Waiting for the metadata of these leaves (path, is a symlink).
    LeafStats(Vec<(String, bool)>),
    /// Waiting for the metadata of the top frame's own path.
    OwnStat,
    Finished,
}

/// A walk in progress, driven step by step: each step takes the answer to
/// the previous `Action` and returns the next one.
///
/// The walker keeps one frame per directory on the way from the root to the
/// directory being worked on (frame 0 is the root's).
pub struct Walker {
    data: WalkData,
    frames: Vec<Frame>,
    stage: Stage,
    root: Ghost<Seq<char>>,
}

spec fn frame_ok(f: Frame, k: int, root: Seq<char>, data: WalkData) -> bool {
    let ignore = data.ignore_directories@;
    &&& f.depth == k
    &&& k == 0 ==> f.path@ == root
    &&& k > 0 ==> !ignored(ignore, f.path@)
    &&& forall|i: int| #![trigger f.pending@[i]] 0 <= i < f.pending@.len() ==> !ignored(ignore, f.pending@[i]@)
    &&& forall|i: int| #![trigger f.children@[i]] 0 <= i < f.children@.len() ==> placed_child(f.children@[i], k, data)
}

/// After the frame at `len - 1` (path `path`, subdirectories `pending` still
/// to visit, nodes `children` built) moved on: unless the walk is aborted,
/// its last pending subdirectory gets a fresh frame and is listed;
/// otherwise its pending subdirectories are dropped and its own metadata is
/// asked for.
pub open spec fn advanced(
    w: Walker,
    r: Action,
    len: int,
    path: Seq<char>,
    pending: Seq<Seq<char>>,
    children: Seq<Node>,
    abort: bool,
) -> bool {
    if !abort && pending.len() > 0 {
        &&& r matches Action::List(d) && d@ == pending.last()
        &&& w.expects_listing()
        &&& w.frame_count() == len + 1
        &&& w.frame_path(len - 1) == path
        &&& w.frame_pending(len - 1) == pending.drop_last()
        &&& w.frame_children(len - 1) == children
        &&& w.frame_path(len) == pending.last()
        &&& w.frame_pending(len).len() == 0
        &&& w.frame_children(len).len() == 0
    } else {
        &&& r matches Action::Stat(ps) && views(ps@) == seq![path]
        &&& w.awaits_own_stat()
        &&& w.frame_count() == len
        &&& w.frame_path(len - 1) == path
        &&& w.frame_pending(len - 1).len() == 0
        &&& w.frame_children(len - 1) == children
    }
}

impl Walker {
    pub closed spec fn root(&self) -> Seq<char> {
        self.root@
    }

    pub open spec fn ignore(&self) -> Seq<String> {
        self.config().ignore_directories@
    }

    /// The configuration the walk was started with.
    pub closed spec fn config(&self) -> WalkData {
        self.data
    }

    /// Number of frames: directories from the root down to the current one.
    pub closed spec fn frame_count(&self) -> int {
        self.frames@.len() as int
    }

    pub closed spec fn frame_path(&self, k: int) -> Seq<char> {
        self.frames@[k].path@
    }

    /// Subdirectories of frame `k` still to visit.
    pub closed spec fn frame_pending(&self, k: int) -> Seq<Seq<char>> {
        views(self.frames@[k].pending@)
    }

    /// Nodes built so far for the entries of frame `k`.
    pub closed spec fn frame_children(&self, k: int) -> Seq<Node> {
        self.frames@[k].children@
    }

    /// The directory the walker is working on.
    pub open spec fn current_dir(&self) -> Seq<char> {
        self.frame_path(self.frame_count() - 1)
    }

    pub closed spec fn is_finished(&self) -> bool {
        self.stage is Finished
    }

    pub closed spec fn expects_listing(&self) -> bool {
        self.stage is Listing
    }

    /// Waiting for the metadata of the current directory itself.
    pub closed spec fn awaits_own_stat(&self) -> bool {
        self.stage is OwnStat
    }

    /// The leaves whose metadata is awaited, with whether each is a symlink.
    pub closed spec fn awaited(&self) -> Seq<(Seq<char>, bool)> {
        match self.stage {
            Stage::LeafStats(l) => leaf_views(l@),
            _ => Seq::empty(),
        }
    }

    pub closed spec fn awaits_leaves(&self) -> bool {
        self.stage is LeafStats
    }

    pub open spec fn expects_stats(&self) -> bool {
        self.awaits_leaves() || self.awaits_own_stat()
    }

    pub closed spec fn wf(&self) -> bool {
        &&& (self.stage is Finished) == (self.frames@.len() == 0)
        &&& forall|k: int|
            #![trigger self.frames@[k]]
            0 <= k < self.frames@.len() ==> frame_ok(self.frames@[k], k, self.root@, self.data)
        &&& self.stage matches Stage::LeafStats(leaves) ==> forall|i: int|
            #![trigger leaves@[i]]
            0 <= i < leaves@.len() ==> !ignored(self.ignore(), leaves@[i].0@)
        &&& self.stage is Listing ==> self.frames@.last().pending@.len() == 0
            && self.frames@.last().children@.len() == 0
    }

    /// Frames below `n` are the same in both walkers.
    pub closed spec fn agrees_below(&self, other: Walker, n: int) -> bool {
        forall|j: int| #![trigger self.frames@[j]] 0 <= j < n ==> self.frames@[j] == other.frames@[j]
    }

    /// The event fits what the walker waits for.
    pub open spec fn accepts(&self, event: Event) -> bool {
        match event {
            Event::Listed(_) => self.expects_listing(),
            Event::Stats(_) => self.expects_stats(),
        }
    }

    /// Whether `event` is the kind of answer the walker waits for.
    pub fn accepts_event(&self, event: &Event) -> (r: bool)
        ensures
            r == self.accepts(*event),
    {
        match event {
            Event::Listed(_) => match self.stage {
                Stage::Listing => true,
                _ => false,
            },
            Event::Stats(_) => match self.stage {
                Stage::LeafStats(_) | Stage::OwnStat => true,
                _ => false,
            },
        }
    }

    /// The action fits the state the walker is left in: an ignored path is
    /// never listed nor resolved.
    pub open spec fn action_fits(&self, action: Action) -> bool {
        match action {
            Action::List(p) => self.expects_listing() && (p@ == self.root() || !ignored(
                self.ignore(),
                p@,
            )),
            Action::Stat(ps) => self.expects_stats() && forall|i: int|
                #![trigger ps@[i]]
                0 <= i < ps@.len() ==> ps@[i]@ == self.root() || !ignored(self.ignore(), ps@[i]@),
            Action::Finish(r) => self.is_finished() && (r matches Some(n) ==> finished_tree(
                n,
                self.root(),
                self.config(),
            )),
        }
    }

    /// Starts a walk of `root`. If the abort flag is already set, the walk
    /// finishes at once with no tree.
    pub fn start(root: String, data: WalkData, errors: &ErrorHandler) -> (r: (Walker, Action))
        ensures
            r.0.wf(),
            r.0.root() == root@,
            r.0.config() == data,
            r.0.ignore() == data.ignore_directories@,
            r.0.action_fits(r.1),
            errors.abort ==> r.1 == Action::Finish(None),
            !errors.abort ==> {
                &&& r.1 matches Action::List(p) && p@ == root@
                &&& r.0.frame_count() == 1
                &&& r.0.frame_path(0) == root@
            },
    {
        if errors.abort {
            let w = Walker { data, frames: Vec::new(), stage: Stage::Finished, root: Ghost(root@) };
            return (w, Action::Finish(None));
        }
        let ghost rv = root@;
        let first = Frame { path: root.clone(), depth: 0, pending: Vec::new(), children: Vec::new() };
        let mut frames: Vec<Frame> = Vec::new();
        frames.push(first);
        let w = Walker { data, frames, stage: Stage::Listing, root: Ghost(rv) };
        proof {
            assert(frame_ok(w.frames@[0], 0, rv, w.data));
        }
        (w, Action::List(root))
    }

    /// Moves the top frame on: visits its last pending subdirectory, or,
    /// when none is left or the walk is aborted, drops what is pending and
    /// asks for the frame's own metadata.
    fn advance(&mut self, errors: &ErrorHandler) -> (r: Action)
        requires
            old(self).wf(),
            old(self).frames@.len() > 0,
            !(old(self).stage is Listing),
        ensures
            final(self).wf(),
            final(self).root() == old(self).root(),
            final(self).config() == old(self).config(),
            final(self).action_fits(r),
            final(self).agrees_below(*old(self), old(self).frame_count() - 1),
            advanced(
                *final(self),
                r,
                old(self).frame_count(),
                old(self).current_dir(),
                old(self).frame_pending(old(self).frame_count() - 1),
                old(self).frame_children(old(self).frame_count() - 1),
                errors.abort,
            ),
    {
        let ghost ign = self.ignore();
        let ghost dat = self.data;
        let ghost rt = self.root@;
        let ghost n = self.frames.len();
        let mut f = self.frames.pop().unwrap();
        let ghost k = self.frames@.len() as int;
        let ghost f0 = f;
        assert(frame_ok(f, k, rt, dat)) by {
            assert(f == old(self).frames@[k]);
        };
        assert(k < usize::MAX) by {
            assert(k + 1 == n);
        };
        if !errors.abort && f.pending.len() > 0 {
            let dir = f.pending.pop().unwrap();
            proof {
                assert(!ignored(ign, f0.pending@[f0.pending@.len() - 1]@));
                assert(views(f.pending@) =~= views(f0.pending@).drop_last());
            }
            let depth = f.depth + 1;
            let next = Frame { path: dir.clone(), depth, pending: Vec::new(), children: Vec::new() };
            self.frames.push(f);
            self.frames.push(next);
            self.stage = Stage::Listing;
            proof {
                assert forall|j: int| #![trigger self.frames@[j]] 0 <= j < self.frames@.len() implies frame_ok(
                    self.frames@[j],
                    j, rt, dat) by {
                    if j == k + 1 {
                        assert(self.frames@[j] == next);
                    } else if j < k {
                        assert(self.frames@[j] == old(self).frames@[j]);
                    }
                }
                assert(self.frames@[k + 1] == next);
                assert(self.frames@[k] == f);
                assert(self.agrees_below(*old(self), k)) by {
                    assert forall|j: int| #![trigger self.frames@[j]] 0 <= j < k implies self.frames@[j]
                        == old(self).frames@[j] by {}
                }
            }
            return Action::List(dir);
        }
        f.pending = Vec::new();
        let own = f.path.clone();
        self.frames.push(f);
        self.stage = Stage::OwnStat;
        proof {
            assert forall|j: int| #![trigger self.frames@[j]] 0 <= j < self.frames@.len() implies frame_ok(
                self.frames@[j],
                j, rt, dat) by {
                if j < k {
                    assert(self.frames@[j] == old(self).frames@[j]);
                }
            }
            assert(self.frames@[k] == f);
            assert(views(f.pending@) =~= Seq::<Seq<char>>::empty());
            assert(self.agrees_below(*old(self), k)) by {
                assert forall|j: int| #![trigger self.frames@[j]] 0 <= j < k implies self.frames@[j]
                    == old(self).frames@[j] by {}
            }
        }
        let ps = vec![own];
        proof {
            assert(views(ps@) =~= seq![f0.path@]);
            assert forall|i: int| #![trigger ps@[i]] 0 <= i < ps@.len() implies ps@[i]@ == rt || !ignored(
                ign,
                ps@[i]@,
            ) by {
                assert(ps@[i]@ == f.path@);
            }
        }
        Action::Stat(ps)
    }

    /// Takes the listing of the current directory: records its problems,
    /// queues its subdirectories and asks for the metadata of its files and
    /// symlinks. Ignored entries are dropped here. A directory that may not
    /// be read becomes an empty node of size zero at once; a path that is
    /// neither a file nor a directory adds no node.
    fn on_listing(&mut self, listing: Listing, errors: &mut ErrorHandler) -> (r: Action)
        requires
            old(self).wf(),
            old(self).expects_listing(),
            old(errors).wf(),
        ensures
            final(self).wf(),
            final(self).root() == old(self).root(),
            final(self).config() == old(self).config(),
            final(self).action_fits(r),
            final(self).agrees_below(*old(self), old(self).frame_count() - 2),
            listed(*old(self), *final(self), listing, r, old(errors).abort),
            final(errors).wf(),
            final(errors).abort == old(errors).abort,
            old(errors).no_permissions ==> final(errors).no_permissions,
            texts(old(errors).file_not_found@).subset_of(texts(final(errors).file_not_found@)),
            texts(old(errors).unknown_error@).subset_of(texts(final(errors).unknown_error@)),
            listing_recorded(*old(errors), *final(errors), listing, old(self).current_dir()),
    {
        let ghost ign = self.ignore();
        let ghost dat = self.data;
        let ghost rt = self.root@;
        let ghost n = self.frames.len();
        let mut f = self.frames.pop().unwrap();
        let ghost k = self.frames@.len() as int;
        assert(frame_ok(f, k, rt, dat)) by {
            assert(f == old(self).frames@[k]);
        };
        match listing {
            Listing::Entries(entries) => {
                let ghost all = entries@;
                let mut leaves: Vec<(String, bool)> = Vec::new();
                let mut paths: Vec<String> = Vec::new();
                let mut i: usize = 0;
                proof {
                    assert(all.subrange(0, 0) =~= Seq::<DirEntry>::empty());
                    assert(views(f.pending@) =~= Seq::<Seq<char>>::empty());
                }
                while i < entries.len()
                    invariant
                        all == entries@,
                        0 <= i <= all.len(),
                        frame_ok(f, k, rt, dat),
                        f.path@ == old(self).frames@[k].path@,
                        f.children@.len() == 0,
                        self.data == old(self).data,
                        dat == self.data,
                        ign == self.data.ignore_directories@,
                        views(f.pending@) == subdir_entries(all.subrange(0, i as int), ign),
                        leaf_views(leaves@) == leaf_entries(all.subrange(0, i as int), ign),
                        paths@.len() == leaves@.len(),
                        forall|j: int| #![trigger paths@[j]] 0 <= j < paths@.len() ==> paths@[j]@ == leaves@[j].0@,
                        forall|j: int| #![trigger leaves@[j]] 0 <= j < leaves@.len() ==> !ignored(ign, leaves@[j].0@),
                        errors.wf(),
                        errors.abort == old(errors).abort,
                        errors.file_not_found == old(errors).file_not_found,
                        errors.unknown_error == old(errors).unknown_error,
                        errors.no_permissions == (old(errors).no_permissions || exists|j: int|
                            0 <= j < i && #[trigger] all[j] is Unreadable),
                    decreases all.len() - i,
                {
                    let ghost pre = all.subrange(0, i as int);
                    let ghost post = all.subrange(0, i as int + 1);
                    let ghost lv0 = leaves@;
                    let ghost ps0 = paths@;
                    let ghost pd0 = f.pending@;
                    proof {
                        assert(post.drop_last() =~= pre);
                        assert(post.last() == all[i as int]);
                    }
                    match &entries[i] {
                        DirEntry::Unreadable => {
                            errors.record_no_permission();
                        },
                        DirEntry::Entry { path, kind } => {
                            if !is_ignored(self.data.ignore_directories.as_slice(), path) {
                                match kind {
                                    Some(EntryKind::Directory) => {
                                        f.pending.push(path.clone());
                                    },
                                    Some(EntryKind::File) => {
                                        paths.push(path.clone());
                                        leaves.push((path.clone(), false));
                                    },
                                    Some(EntryKind::Symlink) => {
                                        paths.push(path.clone());
                                        leaves.push((path.clone(), true));
                                    },
                                    None => {},
                                }
                            }
                        },
                    }
                    proof {
                        assert(views(f.pending@) =~= subdir_entries(post, ign)) by {
                            if f.pending@.len() > pd0.len() {
                                assert(f.pending@ == pd0.push(f.pending@.last()));
                            } else {
                                assert(f.pending@ == pd0);
                            }
                        }
                        assert(leaf_views(leaves@) =~= leaf_entries(post, ign)) by {
                            if leaves@.len() > lv0.len() {
                                assert(leaves@ == lv0.push(leaves@.last()));
                            } else {
                                assert(leaves@ == lv0);
                            }
                        }
                        assert forall|j: int| #![trigger paths@[j]] 0 <= j < paths@.len() implies paths@[j]@
                            == leaves@[j].0@ by {
                            if j < ps0.len() {
                                assert(paths@[j] == ps0[j]);
                                assert(leaves@[j] == lv0[j]);
                            }
                        }
                        assert forall|j: int| #![trigger f.pending@[j]] 0 <= j < f.pending@.len() implies !ignored(
                            ign,
                            f.pending@[j]@,
                        ) by {
                            if j < pd0.len() {
                                assert(f.pending@[j] == pd0[j]);
                            }
                        }
                        assert(errors.no_permissions == (old(errors).no_permissions || exists|j: int|
                            0 <= j < i + 1 && #[trigger] all[j] is Unreadable)) by {
                            if all[i as int] is Unreadable {
                                assert(all[i as int] is Unreadable);
                            }
                        }
                    }
                    i = i + 1;
                }
                proof {
                    assert(all.subrange(0, all.len() as int) =~= all);
                }
                self.frames.push(f);
                proof {
                    assert forall|j: int| #![trigger self.frames@[j]] 0 <= j < self.frames@.len() implies frame_ok(
                        self.frames@[j],
                        j, rt, dat) by {
                        if j < k {
                            assert(self.frames@[j] == old(self).frames@[j]);
                        }
                    }
                    assert(self.frames@[k] == f);
                    assert(self.agrees_below(*old(self), k)) by {
                        assert forall|j: int| #![trigger self.frames@[j]] 0 <= j < k implies self.frames@[j]
                            == old(self).frames@[j] by {}
                    }
                }
                if leaves.len() > 0 {
                    self.stage = Stage::LeafStats(leaves);
                    proof {
                        assert(views(paths@) =~= leaf_paths(leaf_entries(all, ign))) by {
                            assert forall|j: int| 0 <= j < paths@.len() implies #[trigger] views(paths@)[j]
                                == leaf_paths(leaf_entries(all, ign))[j] by {
                                assert(leaf_views(leaves@)[j] == (leaves@[j].0@, leaves@[j].1));
                            }
                        }
                        assert forall|j: int| #![trigger paths@[j]] 0 <= j < paths@.len() implies paths@[j]@ == rt
                            || !ignored(ign, paths@[j]@) by {
                            assert(!ignored(ign, leaves@[j].0@));
                        }
                    }
                    Action::Stat(paths)
                } else {
                    self.stage = Stage::OwnStat;
                    proof {
                        assert(f.children@ =~= Seq::<Node>::empty());
                        assert(self.frame_children(k) == Seq::<Node>::empty());
                    }
                    self.advance(errors)
                }
            },
            Listing::Failed(ListingFailure::PermissionDenied) => {
                errors.record_listing_failure(ListingFailure::PermissionDenied);
                let ghost w0 = *old(self);
                let z = Node { name: f.path, size: 0, children: Vec::new(), inode_device: None, depth: f.depth };
                proof {
                    lemma_sizes_sum_nonneg(z.children@);
                    assert(z.children@ =~= Seq::<Node>::empty());
                    assert(aggregated(z));
                    assert(depths_consistent(z));
                    assert(avoids_below(z, ign));
                    if k > 0 {
                        assert(avoids(z, ign));
                    }
                    assert(self.frames@ =~= w0.frames@.drop_last());
                    assert(self.frames_ok()) by {
                        assert forall|j: int| #![trigger self.frames@[j]] 0 <= j < self.frames@.len() implies frame_ok(
                            self.frames@[j],
                            j, rt, dat) by {
                            assert(self.frames@[j] == old(self).frames@[j]);
                        }
                    }
                }
                let r = self.close_frame(Some(z), errors, Ghost(w0));
                proof {
                    let len = w0.frame_count();
                    assert(unreadable_dir_node(z, w0.current_dir(), len - 1));
                    if len == 1 {
                        if r matches Action::Finish(Some(_)) {
                            let t = r->Finish_0.unwrap();
                            lemma_deduped_childless(t, z, Set::empty(), self.data.use_apparent_size);
                        }
                    }
                    if len > 1 {
                        let nk = w0.frame_children(len - 2) + opt_seq(Some(z));
                        assert(nk.drop_last() =~= w0.frame_children(len - 2));
                        assert(nk.last() == z);
                        assert(advanced(*self, r, len - 1, w0.frame_path(len - 2), w0.frame_pending(len - 2), nk, errors.abort));
                    }
                }
                r
            },
            Listing::Failed(fail) => {
                errors.record_listing_failure(fail);
                self.frames.push(f);
                self.stage = Stage::OwnStat;
                proof {
                    assert(self.frames@ =~= old(self).frames@);
                    assert(f.children@ =~= Seq::<Node>::empty());
                    assert(views(f.pending@) =~= Seq::<Seq<char>>::empty());
                }
                self.advance(errors)
            },
            Listing::NotADirectory => {
                self.frames.push(f);
                self.stage = Stage::OwnStat;
                proof {
                    assert(self.frames@ =~= old(self).frames@);
                    assert(f.children@ =~= Seq::<Node>::empty());
                    assert(views(f.pending@) =~= Seq::<Seq<char>>::empty());
                }
                self.advance(errors)
            },
            Listing::Missing => {
                errors.record_not_found(f.path);
                let ghost w0 = *old(self);
                proof {
                    assert(self.frames@ =~= w0.frames@.drop_last());
                    assert(self.frames_ok()) by {
                        assert forall|j: int| #![trigger self.frames@[j]] 0 <= j < self.frames@.len() implies frame_ok(
                            self.frames@[j],
                            j, rt, dat) by {
                            assert(self.frames@[j] == old(self).frames@[j]);
                        }
                    }
                }
                let r = self.close_frame(None, errors, Ghost(w0));
                proof {
                    let len = w0.frame_count();
                    if len > 1 {
                        let nk = w0.frame_children(len - 2) + opt_seq(None);
                        assert(nk =~= w0.frame_children(len - 2));
                    }
                }
                r
            },
        }
    }

    /// Builds the nodes of the current directory's files and symlinks from
    /// their metadata, counts each one that could be built, then moves the
    /// directory on.
    fn on_leaf_stats(
        &mut self,
        leaves: Vec<(String, bool)>,
        metas: Vec<Option<Metadata>>,
        errors: &ErrorHandler,
        progress: &mut ProgressHandler,
    ) -> (r: Action)
        requires
            old(self).wf(),
            old(self).frames@.len() > 0,
            old(self).stage is OwnStat,
            forall|i: int| #![trigger leaves@[i]] 0 <= i < leaves@.len() ==> !ignored(old(self).ignore(), leaves@[i].0@),
        ensures
            final(self).wf(),
            final(self).root() == old(self).root(),
            final(self).config() == old(self).config(),
            final(self).action_fits(r),
            final(self).agrees_below(*old(self), old(self).frame_count() - 1),
            exists|cs: Seq<Node>|
                {
                    &&& #[trigger] leaves_built(
                        cs,
                        leaf_views(leaves@),
                        metas@,
                        leaves@.len() as int,
                        old(self).config(),
                        old(self).frame_count() as usize,
                    )
                    &&& advanced(
                        *final(self),
                        r,
                        old(self).frame_count(),
                        old(self).current_dir(),
                        old(self).frame_pending(old(self).frame_count() - 1),
                        old(self).frame_children(old(self).frame_count() - 1) + cs,
                        errors.abort,
                    )
                    &&& final(progress).total_file_size == saturating_u64(
                        old(progress).total_file_size + sizes_sum(cs),
                    )
                },
            final(progress).num_files == saturating_usize(
                old(progress).num_files + present_count(metas@, leaves@.len() as int),
            ),
            old(progress).num_files <= final(progress).num_files,
            old(progress).total_file_size <= final(progress).total_file_size,
            final(progress).scan_complete == old(progress).scan_complete,
    {
        let ghost ign = self.ignore();
        let ghost dat = self.data;
        let ghost rt = self.root@;
        let ghost n = self.frames.len();
        let ghost lv = leaf_views(leaves@);
        let mut f = self.frames.pop().unwrap();
        let ghost k = self.frames@.len() as int;
        let ghost c0 = f.children@;
        assert(frame_ok(f, k, rt, dat)) by {
            assert(f == old(self).frames@[k]);
        };
        assert(k < usize::MAX) by {
            assert(k + 1 == n);
        };
        let depth = f.depth + 1;
        let ghost mut cs: Seq<Node> = Seq::empty();
        let mut j: usize = 0;
        while j < leaves.len()
            invariant
                frame_ok(f, k, rt, dat),
                f.path@ == old(self).frames@[k].path@,
                f.pending == old(self).frames@[k].pending,
                depth == k + 1,
                self.data == old(self).data,
                dat == self.data,
                ign == self.data.ignore_directories@,
                lv == leaf_views(leaves@),
                forall|i: int| #![trigger leaves@[i]] 0 <= i < leaves@.len() ==> !ignored(ign, leaves@[i].0@),
                0 <= j <= leaves@.len(),
                f.children@ == c0 + cs,
                leaves_built(cs, lv, metas@, j as int, self.data, depth),
                progress.num_files == saturating_usize(old(progress).num_files + present_count(metas@, j as int)),
                progress.total_file_size == saturating_u64(old(progress).total_file_size + sizes_sum(cs)),
                old(progress).total_file_size <= progress.total_file_size,
                progress.scan_complete == old(progress).scan_complete,
            decreases leaves@.len() - j,
        {
            let path = leaves[j].0.clone();
            let is_symlink = leaves[j].1;
            proof {
                assert(!ignored(ign, leaves@[j as int].0@));
                assert(lv[j as int] == (path@, is_symlink));
            }
            let meta = if j < metas.len() {
                metas[j]
            } else {
                None
            };
            let built = build_node(
                path,
                Vec::new(),
                self.data.filter_regex.as_slice(),
                self.data.invert_filter_regex.as_slice(),
                self.data.use_apparent_size,
                is_symlink,
                depth,
                meta,
            );
            proof {
                lemma_sizes_sum_nonneg(Seq::<Node>::empty());
                assert(meta == meta_at(metas@, j as int));
            }
            proof {
                assert(present_count(metas@, j as int + 1) == present_count(metas@, j as int) + if meta is Some {
                    1int
                } else {
                    0
                });
                lemma_present_count_nonneg(metas@, j as int);
            }
            proof {
                lemma_sizes_sum_nonneg(cs);
            }
            if let Some(node) = built {
                progress.record_file(node.size);
                proof {
                    lemma_sizes_sum_push(cs, node);
                    lemma_sizes_sum_nonneg(node.children@);
                    assert(built_as(
                        node,
                        node.name@,
                        node.children@,
                        meta.unwrap(),
                        dat.filter_regex@,
                        dat.invert_filter_regex@,
                        dat.use_apparent_size,
                        is_symlink,
                        node.depth,
                    ));
                    assert(built_tree(node, dat));
                    assert(placed_child(node, k, dat));
                }
                f.children.push(node);
                proof {
                    let cs1 = cs.push(node);
                    assert(cs1.drop_last() =~= cs);
                    assert(f.children@ =~= c0 + cs1);
                    assert(node.children@ =~= Seq::<Node>::empty());
                    assert(leaves_built(cs1, lv, metas@, j as int + 1, self.data, depth));
                    cs = cs1;
                    assert forall|i: int| #![trigger f.children@[i]] 0 <= i < f.children@.len() implies placed_child(
                        f.children@[i],
                        k, dat) by {}
                }
            } else {
                proof {
                    assert(meta is None);
                    assert(leaves_built(cs, lv, metas@, j as int + 1, self.data, depth));
                }
            }
            j = j + 1;
        }
        self.frames.push(f);
        proof {
            assert forall|i: int| #![trigger self.frames@[i]] 0 <= i < self.frames@.len() implies frame_ok(
                self.frames@[i],
                i, rt, dat) by {
                if i < k {
                    assert(self.frames@[i] == old(self).frames@[i]);
                }
            }
            assert(self.frames@[k] == f);
        }
        proof {
            assert(f.children@ == old(self).frames@[k].children@ + cs);
            assert(leaf_views(leaves@) == lv);
            lemma_present_count_nonneg(metas@, leaves@.len() as int);
        }
        let r = self.advance(errors);
        proof {
            assert(leaves_built(cs, lv, metas@, leaves@.len() as int, old(self).config(), old(self).frame_count() as usize));
            assert(advanced(
                *self,
                r,
                old(self).frame_count(),
                old(self).current_dir(),
                old(self).frame_pending(old(self).frame_count() - 1),
                old(self).frame_children(old(self).frame_count() - 1) + cs,
                errors.abort,
            ));
            assert(progress.total_file_size == saturating_u64(old(progress).total_file_size + sizes_sum(cs)));
            assert(self.agrees_below(*old(self), k)) by {
                assert forall|i: int| #![trigger self.frames@[i]] 0 <= i < k implies self.frames@[i]
                    == old(self).frames@[i] by {}
            }
        }
        r
    }

    /// Every frame is well placed (the walker may be between a pop and
    /// the next push).
    closed spec fn frames_ok(&self) -> bool {
        forall|k: int|
            #![trigger self.frames@[k]]
            0 <= k < self.frames@.len() ==> frame_ok(self.frames@[k], k, self.root@, self.data)
    }

    /// Hands the node of a directory whose frame was just popped to its
    /// parent and moves the parent on; with no parent left, finishes the
    /// walk with the deduplicated tree, or with none when the walk was
    /// aborted or no node came.
    fn close_frame(&mut self, built: Option<Node>, errors: &ErrorHandler, Ghost(w0): Ghost<Walker>) -> (r:
        Action)
        requires
            w0.frame_count() > 0,
            old(self).frames@ == w0.frames@.drop_last(),
            old(self).data == w0.data,
            old(self).root == w0.root,
            old(self).frames_ok(),
            built matches Some(n) ==> {
                &&& w0.frame_count() > 1 ==> placed_child(n, w0.frame_count() - 2, w0.config())
                &&& w0.frame_count() == 1 ==> {
                    &&& n.name@ == w0.root()
                    &&& n.depth == 0
                    &&& aggregated(n)
                    &&& depths_consistent(n)
                    &&& avoids_below(n, w0.ignore())
                    &&& built_tree(n, w0.config())
                }
            },
        ensures
            final(self).wf(),
            final(self).root() == w0.root(),
            final(self).config() == w0.config(),
            final(self).action_fits(r),
            final(self).agrees_below(w0, w0.frame_count() - 2),
            w0.frame_count() == 1 ==> {
                &&& final(self).is_finished()
                &&& r matches Action::Finish(res)
                &&& res is Some <==> (!errors.abort && built is Some)
                &&& res matches Some(n) ==> deduped(n, built.unwrap(), Set::empty(), w0.config().use_apparent_size)
            },
            w0.frame_count() > 1 ==> advanced(
                *final(self),
                r,
                w0.frame_count() - 1,
                w0.frame_path(w0.frame_count() - 2),
                w0.frame_pending(w0.frame_count() - 2),
                w0.frame_children(w0.frame_count() - 2) + opt_seq(built),
                errors.abort,
            ),
    {
        let ghost ign = self.ignore();
        let ghost dat = self.data;
        let ghost rt = self.root@;
        if self.frames.len() == 0 {
            self.stage = Stage::Finished;
            if errors.abort {
                return Action::Finish(None);
            }
            match built {
                Some(nd) => {
                    let tree = deduplicate(&nd, self.data.use_apparent_size);
                    proof {
                        lemma_deduped_shape(tree, nd, Set::empty(), self.data.use_apparent_size, ign);
                    }
                    Action::Finish(Some(tree))
                },
                None => Action::Finish(None),
            }
        } else {
            let ghost k = self.frames@.len() as int;
            let mut parent = self.frames.pop().unwrap();
            let ghost p0 = parent;
            assert(frame_ok(parent, k - 1, rt, dat)) by {
                assert(parent == old(self).frames@[k - 1]);
            };
            if let Some(nd) = built {
                parent.children.push(nd);
                proof {
                    assert forall|i: int| #![trigger parent.children@[i]] 0 <= i < parent.children@.len() implies placed_child(
                        parent.children@[i],
                        k - 1, dat) by {
                        if i < p0.children@.len() {
                            assert(parent.children@[i] == p0.children@[i]);
                        }
                    }
                }
            }
            proof {
                assert(parent.children@ =~= p0.children@ + opt_seq(built));
                assert(p0 == w0.frames@[k - 1]);
            }
            self.frames.push(parent);
            self.stage = Stage::OwnStat;
            proof {
                assert forall|j: int| #![trigger self.frames@[j]] 0 <= j < self.frames@.len() implies frame_ok(
                    self.frames@[j],
                    j, rt, dat) by {
                    if j < k - 1 {
                        assert(self.frames@[j] == old(self).frames@[j]);
                    }
                }
                assert(self.frames@[k - 1] == parent);
            }
            let r = self.advance(errors);
            proof {
                assert(self.agrees_below(w0, k - 1)) by {
                    assert forall|i: int| #![trigger self.frames@[i]] 0 <= i < k - 1 implies self.frames@[i]
                        == w0.frames@[i] by {
                        assert(old(self).frames@[i] == w0.frames@[i]);
                    }
                }
            }
            r
        }
    }

    /// Builds the current directory's node from its own metadata and its
    /// children, and closes its frame.
    fn on_own_stat(&mut self, metas: Vec<Option<Metadata>>, errors: &ErrorHandler) -> (r: Action)
        requires
            old(self).wf(),
            old(self).frames@.len() > 0,
            old(self).stage is OwnStat,
        ensures
            final(self).wf(),
            final(self).root() == old(self).root(),
            final(self).config() == old(self).config(),
            final(self).action_fits(r),
            final(self).agrees_below(*old(self), old(self).frame_count() - 2),
            own_stat_taken(*old(self), *final(self), meta_at(metas@, 0), r, errors.abort),
    {
        let ghost ign = self.ignore();
        let ghost dat = self.data;
        let ghost rt = self.root@;
        let ghost w0 = *self;
        let f = self.frames.pop().unwrap();
        let ghost k = self.frames@.len() as int;
        assert(frame_ok(f, k, rt, dat)) by {
            assert(f == old(self).frames@[k]);
        };
        let meta = if metas.len() > 0 {
            metas[0]
        } else {
            None
        };
        let ghost kids = f.children@;
        let ghost fpath = f.path@;
        let built = build_node(
            f.path,
            f.children,
            self.data.filter_regex.as_slice(),
            self.data.invert_filter_regex.as_slice(),
            self.data.use_apparent_size,
            false,
            f.depth,
            meta,
        );
        proof {
            assert(meta == meta_at(metas@, 0));
            if built is Some {
                let nd = built.unwrap();
                lemma_sizes_sum_nonneg(nd.children@);
                assert(nd.children@ == kids);
                assert forall|i: int| #![trigger nd.children@[i]] 0 <= i < nd.children@.len() implies aggregated(
                    nd.children@[i],
                ) && avoids(nd.children@[i], ign) && nd.children@[i].depth == nd.depth + 1 && depths_consistent(
                    nd.children@[i],
                ) by {
                    assert(placed_child(kids[i], k, dat));
                }
                assert(aggregated(nd));
                assert(depths_consistent(nd));
                assert(avoids_below(nd, ign));
                if k > 0 {
                    assert(avoids(nd, ign));
                }
            }
            assert(self.frames_ok()) by {
                assert forall|j: int| #![trigger self.frames@[j]] 0 <= j < self.frames@.len() implies frame_ok(
                    self.frames@[j],
                    j, rt, dat) by {
                    assert(self.frames@[j] == old(self).frames@[j]);
                }
            }
        }
        proof {
            assert(self.frames@ =~= w0.frames@.drop_last());
        }
        let r = self.close_frame(built, errors, Ghost(w0));
        proof {
            let len = w0.frame_count();
            let d = w0.config();
            if len == 1 {
                if built is Some {
                    assert(built_as(
                        built.unwrap(),
                        w0.current_dir(),
                        w0.frame_children(0),
                        meta_at(metas@, 0).unwrap(),
                        d.filter_regex@,
                        d.invert_filter_regex@,
                        d.use_apparent_size,
                        false,
                        0,
                    ));
                }
            } else {
                let nk = w0.frame_children(len - 2) + opt_seq(built);
                if built is Some {
                    assert(nk.drop_last() =~= w0.frame_children(len - 2));
                    assert(nk.last() == built.unwrap());
                } else {
                    assert(nk =~= w0.frame_children(len - 2));
                }
                assert(advanced(*self, r, len - 1, w0.frame_path(len - 2), w0.frame_pending(len - 2), nk, errors.abort));
            }
        }
        r
    }

    /// Takes the answer to the last action and returns the next action.
    /// Problems are recorded in `errors`, built files counted in `progress`.
    /// The abort flag is read whenever a subdirectory is about to be
    /// visited and once more when the walk finishes.
    pub fn step(&mut self, event: Event, errors: &mut ErrorHandler, progress: &mut ProgressHandler) -> (r:
        Action)
        requires
            old(self).wf(),
            old(errors).wf(),
            old(self).accepts(event),
        ensures
            final(self).wf(),
            final(self).root() == old(self).root(),
            final(self).config() == old(self).config(),
            final(self).action_fits(r),
            r matches Action::Finish(Some(_)) ==> !final(errors).abort,
            final(errors).wf(),
            final(errors).abort == old(errors).abort,
            old(errors).no_permissions ==> final(errors).no_permissions,
            texts(old(errors).file_not_found@).subset_of(texts(final(errors).file_not_found@)),
            texts(old(errors).unknown_error@).subset_of(texts(final(errors).unknown_error@)),
            old(progress).num_files <= final(progress).num_files,
            old(progress).total_file_size <= final(progress).total_file_size,
            final(progress).scan_complete == old(progress).scan_complete,
            event matches Event::Listed(listing) ==> {
                &&& listed(*old(self), *final(self), listing, r, old(errors).abort)
                &&& final(self).agrees_below(*old(self), old(self).frame_count() - 2)
                &&& *final(progress) == *old(progress)
            },
            event matches Event::Listed(listing) ==> listing_recorded(
                *old(errors),
                *final(errors),
                listing,
                old(self).current_dir(),
            ),
            event matches Event::Stats(metas) ==> *final(errors) == *old(errors),
            old(self).awaits_leaves() ==> (event matches Event::Stats(metas) ==> {
                &&& final(self).agrees_below(*old(self), old(self).frame_count() - 1)
                &&& final(progress).num_files == saturating_usize(
                    old(progress).num_files + present_count(metas@, old(self).awaited().len() as int),
                )
                &&& exists|cs: Seq<Node>|
                    {
                        &&& #[trigger] leaves_built(
                            cs,
                            old(self).awaited(),
                            metas@,
                            old(self).awaited().len() as int,
                            old(self).config(),
                            old(self).frame_count() as usize,
                        )
                        &&& advanced(
                            *final(self),
                            r,
                            old(self).frame_count(),
                            old(self).current_dir(),
                            old(self).frame_pending(old(self).frame_count() - 1),
                            old(self).frame_children(old(self).frame_count() - 1) + cs,
                            old(errors).abort,
                        )
                        &&& final(progress).total_file_size == saturating_u64(
                            old(progress).total_file_size + sizes_sum(cs),
                        )
                    }
            }),
            old(self).awaits_own_stat() ==> (event matches Event::Stats(metas) ==> {
                &&& final(self).agrees_below(*old(self), old(self).frame_count() - 2)
                &&& own_stat_taken(*old(self), *final(self), meta_at(metas@, 0), r, old(errors).abort)
                &&& *final(progress) == *old(progress)
            }),
    {
        match event {
            Event::Listed(listing) => {
                let r = self.on_listing(listing, errors);
                proof {
                    assert(*progress == *old(progress));
                }
                r
            },
            Event::Stats(metas) => {
                let mut stage = Stage::OwnStat;
                std::mem::swap(&mut self.stage, &mut stage);
                match stage {
                    Stage::LeafStats(leaves) => {
                        let ghost lv = leaf_views(leaves@);
                        let ghost n = leaves@.len() as int;
                        let ghost w0 = *old(self);
                        let ghost ms = metas@;
                        proof {
                            assert(lv == old(self).awaited());
                        }
                        let r = self.on_leaf_stats(leaves, metas, errors, progress);
                        proof {
                            let len = w0.frame_count();
                            let cs = choose|cs: Seq<Node>|
                                {
                                    &&& #[trigger] leaves_built(cs, lv, ms, n, w0.config(), len as usize)
                                    &&& advanced(
                                        *self,
                                        r,
                                        len,
                                        w0.current_dir(),
                                        w0.frame_pending(len - 1),
                                        w0.frame_children(len - 1) + cs,
                                        errors.abort,
                                    )
                                    &&& progress.total_file_size == saturating_u64(
                                        old(progress).total_file_size + sizes_sum(cs),
                                    )
                                };
                            assert(leaves_built(cs, w0.awaited(), ms, w0.awaited().len() as int, w0.config(), len as usize));
                        }
                        r
                    },
                    _ => self.on_own_stat(metas, errors),
                }
            },
        }
    }
}

/// The walker `w1` after `w0` took `listing` for its current directory:
/// when files or symlinks were listed, their metadata is asked for and the
/// subdirectories wait; otherwise the directory moves on at once.
pub open spec fn listed(w0: Walker, w1: Walker, listing: Listing, r: Action, abort: bool) -> bool {
    let len = w0.frame_count();
    let leaves = match listing {
        Listing::Entries(es) => leaf_entries(es@, w0.ignore()),
        _ => Seq::empty(),
    };
    let dirs = match listing {
        Listing::Entries(es) => subdir_entries(es@, w0.ignore()),
        _ => Seq::empty(),
    };
    match listing {
        Listing::Failed(ListingFailure::PermissionDenied) => {
            &&& frame_closed(
                w0,
                w1,
                r,
                abort,
                true,
                |b: Node| unreadable_dir_node(b, w0.current_dir(), len - 1),
            )
            &&& len == 1 ==> (r matches Action::Finish(Some(n)) ==> unreadable_dir_node(n, w0.current_dir(), 0))
        },
        Listing::Missing => frame_closed(w0, w1, r, abort, false, |b: Node| false),
        _ => if leaves.len() > 0 {
            &&& r matches Action::Stat(ps) && views(ps@) == leaf_paths(leaves)
            &&& w1.awaits_leaves()
            &&& w1.awaited() == leaves
            &&& w1.frame_count() == len
            &&& w1.frame_path(len - 1) == w0.current_dir()
            &&& w1.frame_pending(len - 1) == dirs
            &&& w1.frame_children(len - 1).len() == 0
        } else {
            advanced(w1, r, len, w0.current_dir(), dirs, Seq::empty(), abort)
        },
    }
}

/// How taking `listing` for the directory `dir` changes the problems
/// recorded: an unreadable entry or a refused listing latches the
/// permission flag, a not-found failure or a missing path adds one
/// not-found text, any other failure adds one unknown-error text; nothing
/// else changes.
pub open spec fn listing_recorded(e0: ErrorHandler, e1: ErrorHandler, listing: Listing, dir: Seq<char>) -> bool {
    &&& e1.abort == e0.abort
    &&& match listing {
        Listing::Entries(es) => {
            &&& e1.no_permissions == (e0.no_permissions || exists|i: int|
                0 <= i < es@.len() && #[trigger] es@[i] is Unreadable)
            &&& e1.file_not_found == e0.file_not_found
            &&& e1.unknown_error == e0.unknown_error
        },
        Listing::Failed(ListingFailure::PermissionDenied) => {
            &&& e1.no_permissions
            &&& e1.file_not_found == e0.file_not_found
            &&& e1.unknown_error == e0.unknown_error
        },
        Listing::Failed(ListingFailure::NotFound(m)) => {
            &&& e1.no_permissions == e0.no_permissions
            &&& texts(e1.file_not_found@) == texts(e0.file_not_found@).insert(m@)
            &&& e1.unknown_error == e0.unknown_error
        },
        Listing::Failed(ListingFailure::Other(m)) => {
            &&& e1.no_permissions == e0.no_permissions
            &&& e1.file_not_found == e0.file_not_found
            &&& texts(e1.unknown_error@) == texts(e0.unknown_error@).insert(m@)
        },
        Listing::NotADirectory => e1 == e0,
        Listing::Missing => {
            &&& e1.no_permissions == e0.no_permissions
            &&& texts(e1.file_not_found@) == texts(e0.file_not_found@).insert(dir)
            &&& e1.unknown_error == e0.unknown_error
        },
    }
}

/// The node list that optionally holds `n`.
pub open spec fn opt_seq(o: Option<Node>) -> Seq<Node> {
    match o {
        Some(n) => seq![n],
        None => Seq::empty(),
    }
}

/// The walker `w1` after `w0` closed its current directory, with a node
/// satisfying `is_node` when `made` and with none otherwise. At the root
/// the walk ends, with the deduplicated tree unless it was aborted or no
/// node was made; below it, the node (if any) joins its parent's children
/// and the parent moves on.
pub open spec fn frame_closed(
    w0: Walker,
    w1: Walker,
    r: Action,
    abort: bool,
    made: bool,
    is_node: spec_fn(Node) -> bool,
) -> bool {
    let len = w0.frame_count();
    if len == 1 {
        &&& w1.is_finished()
        &&& r matches Action::Finish(res)
        &&& res is Some <==> (!abort && made)
        &&& res matches Some(n) ==> exists|b: Node|
            is_node(b) && #[trigger] deduped(n, b, Set::empty(), w0.config().use_apparent_size)
    } else {
        exists|nk: Seq<Node>|
            {
                &&& if made {
                    nk.len() == w0.frame_children(len - 2).len() + 1 && nk.drop_last() == w0.frame_children(
                        len - 2,
                    ) && is_node(nk.last())
                } else {
                    nk == w0.frame_children(len - 2)
                }
                &&& #[trigger] advanced(w1, r, len - 1, w0.frame_path(len - 2), w0.frame_pending(len - 2), nk, abort)
            }
    }
}

/// The walker `w1` after `w0` got `meta` for its current directory: the
/// directory's node is built from that metadata and its children, when it
/// can be, and the frame is closed.
pub open spec fn own_stat_taken(w0: Walker, w1: Walker, meta: Option<Metadata>, r: Action, abort: bool) -> bool {
    let len = w0.frame_count();
    let d = w0.config();
    let path = w0.current_dir();
    let kids = w0.frame_children(len - 1);
    frame_closed(
        w0,
        w1,
        r,
        abort,
        buildable(path, kids, meta, d.filter_regex@, d.invert_filter_regex@, d.use_apparent_size, false),
        |b: Node|
            built_as(
                b,
                path,
                kids,
                meta.unwrap(),
                d.filter_regex@,
                d.invert_filter_regex@,
                d.use_apparent_size,
                false,
                (len - 1) as usize,
            ),
    )
}

/// The node placed for a directory that may not be read: its path, size
/// zero, no children, no identity.
pub open spec fn unreadable_dir_node(b: Node, path: Seq<char>, depth: int) -> bool {
    &&& b.name@ == path
    &&& b.size == 0
    &&& b.children@.len() == 0
    &&& b.depth == depth
    &&& b.inode_device is None
}

/// Sizes add up in a finished walk's tree, before and after hard links are
/// collapsed: the tree is the pass result of a tree the walk built, whose
/// root's size is its own contribution (zero or more) plus its children's
/// sizes; the finished root adds that same contribution to the sizes of its
/// surviving children. The same holds at every node, by `built_tree` and
/// `deduped`.
pub proof fn lemma_finished_sizes_add_up(n: Node, root: Seq<char>, data: WalkData)
    requires
        finished_tree(n, root, data),
    ensures
        exists|b: Node|
            {
                &&& built_tree(b, data)
                &&& #[trigger] deduped(n, b, Set::empty(), data.use_apparent_size)
                &&& own_size(b) >= 0
                &&& b.size == own_size(b) + sizes_sum(b.children@)
                &&& n.size == own_size(b) + sizes_sum(n.children@)
            },
{
    let b = choose|b: Node| built_tree(b, data) && #[trigger] deduped(n, b, Set::empty(), data.use_apparent_size);
    if !unreadable_dir_node(b, b.name@, b.depth as int) {
        let (m, l) = choose|m: Metadata, l: bool|
            #[trigger] built_as(
                b,
                b.name@,
                b.children@,
                m,
                data.filter_regex@,
                data.invert_filter_regex@,
                data.use_apparent_size,
                l,
                b.depth,
            );
        assert(own_contribution(m, data.filter_regex@, data.invert_filter_regex@, data.use_apparent_size, l, b.name@) >= 0);
    } else {
        assert(b.children@ =~= Seq::<Node>::empty());
    }
}

/// An ignored path is never present in a finished walk's tree, not even as
/// an empty leaf, when the walk's root is not itself ignored.
pub proof fn lemma_ignored_paths_absent(n: Node, root: Seq<char>, data: WalkData)
    requires
        finished_tree(n, root, data),
        !ignored(data.ignore_directories@, root),
    ensures
        avoids(n, data.ignore_directories@),
{
}

} // verus!
