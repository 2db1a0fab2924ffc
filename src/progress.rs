use vstd::prelude::*;

verus! {

/// Live counters of one walk. The counters saturate instead of wrapping, so
/// they never decrease while a walk runs.
#[derive(Debug, Clone, Copy, PartialEq, Eq, Structural)]
pub struct ProgressHandler {
    pub num_files: usize,
    pub total_file_size: u64,
    pub scan_complete: bool,
}

pub open spec fn saturating_usize(v: int) -> usize {
    if v > usize::MAX { usize::MAX } else { v as usize }
}

pub open spec fn saturating_u64(v: int) -> u64 {
    if v > u64::MAX { u64::MAX } else { v as u64 }
}

impl ProgressHandler {
    pub fn new() -> (r: ProgressHandler)
        ensures
            r.num_files == 0,
            r.total_file_size == 0,
            !r.scan_complete,
    {
        ProgressHandler { num_files: 0, total_file_size: 0, scan_complete: false }
    }

    /// Resets the counters and the completion flag for a new walk.
    pub fn clear_state(&mut self)
        ensures
            final(self).num_files == 0,
            final(self).total_file_size == 0,
            !final(self).scan_complete,
    {
        self.total_file_size = 0;
        self.num_files = 0;
        self.scan_complete = false;
    }

    /// Counts one built file of `size` bytes.
    pub fn record_file(&mut self, size: u64)
        ensures
            final(self).num_files == saturating_usize(old(self).num_files + 1),
            final(self).total_file_size == saturating_u64(old(self).total_file_size + size),
            final(self).scan_complete == old(self).scan_complete,
    {
        self.num_files = self.num_files.saturating_add(1);
        self.total_file_size = self.total_file_size.saturating_add(size);
    }

    /// Marks the walk as finished.
    pub fn mark_complete(&mut self)
        ensures
            final(self).num_files == old(self).num_files,
            final(self).total_file_size == old(self).total_file_size,
            final(self).scan_complete,
    {
        self.scan_complete = true;
    }
}

/// The distinct texts held by `v`.
pub open spec fn texts(v: Seq<String>) -> Set<Seq<char>> {
    Set::new(|t: Seq<char>| exists|i: int| 0 <= i < v.len() && #[trigger] v[i]@ == t)
}

/// No text occurs twice in `v`.
pub open spec fn distinct_texts(v: Seq<String>) -> bool {
    forall|i: int, j: int| 0 <= i < j < v.len() ==> #[trigger] v[i]@ != #[trigger] v[j]@
}

/// Adds `s` to `v` unless a string with the same text is there already.
pub fn insert_distinct(v: &mut Vec<String>, s: String)
    requires
        distinct_texts(old(v)@),
    ensures
        distinct_texts(final(v)@),
        texts(final(v)@) == texts(old(v)@).insert(s@),
{
    let mut i: usize = 0;
    while i < v.len()
        invariant
            v@ == old(v)@,
            distinct_texts(v@),
            0 <= i <= v@.len(),
            forall|j: int| 0 <= j < i ==> #[trigger] v@[j]@ != s@,
        decreases v@.len() - i,
    {
        if v[i].eq(&s) {
            proof {
                assert(texts(v@) =~= texts(v@).insert(s@));
            }
            return;
        }
        i = i + 1;
    }
    let ghost before = v@;
    v.push(s);
    proof {
        assert forall|t: Seq<char>| #[trigger] texts(v@).contains(t) <==> texts(before).insert(
            s@,
        ).contains(t) by {
            if texts(before).contains(t) {
                let w = choose|w: int| 0 <= w < before.len() && #[trigger] before[w]@ == t;
                assert(v@[w]@ == t);
            }
            if texts(v@).contains(t) && t != s@ {
                let w = choose|w: int| 0 <= w < v@.len() && #[trigger] v@[w]@ == t;
                assert(before[w]@ == t);
            }
            if t == s@ {
                assert(v@[before.len() as int]@ == t);
            }
        }
        assert(texts(v@) =~= texts(before).insert(s@));
    }
}

/// Why a directory could not be listed.
#[derive(Debug)]
pub enum ListingFailure {
    PermissionDenied,
    /// The message of a not-found error.
    NotFound(String),
    /// The message of any other error.
    Other(String),
}

/// Problems met by one walk, reported together once it ends, and the
/// cooperative cancellation flag.
#[derive(Debug)]
pub struct ErrorHandler {
    /// Latched once some directory or entry could not be read for lack of
    /// permission.
    pub no_permissions: bool,
    /// Distinct paths or messages of entries that were not found.
    pub file_not_found: Vec<String>,
    /// Distinct messages of other failures.
    pub unknown_error: Vec<String>,
    /// Set from outside to ask a running walk to stop.
    pub abort: bool,
}

impl ErrorHandler {
    pub open spec fn wf(&self) -> bool {
        distinct_texts(self.file_not_found@) && distinct_texts(self.unknown_error@)
    }

    pub fn new() -> (r: ErrorHandler)
        ensures
            r.wf(),
            !r.no_permissions,
            r.file_not_found@.len() == 0,
            r.unknown_error@.len() == 0,
            !r.abort,
    {
        ErrorHandler { no_permissions: false, file_not_found: Vec::new(), unknown_error: Vec::new(), abort: false }
    }

    /// Forgets the problems of an earlier walk; the abort flag is kept.
    pub fn clear_state(&mut self)
        ensures
            final(self).wf(),
            !final(self).no_permissions,
            final(self).file_not_found@.len() == 0,
            final(self).unknown_error@.len() == 0,
            final(self).abort == old(self).abort,
    {
        self.no_permissions = false;
        self.file_not_found = Vec::new();
        self.unknown_error = Vec::new();
    }

    /// Records that `path` is neither a file nor a directory.
    pub fn record_not_found(&mut self, path: String)
        requires
            old(self).wf(),
        ensures
            final(self).wf(),
            texts(final(self).file_not_found@) == texts(old(self).file_not_found@).insert(path@),
            final(self).unknown_error == old(self).unknown_error,
            final(self).no_permissions == old(self).no_permissions,
            final(self).abort == old(self).abort,
    {
        insert_distinct(&mut self.file_not_found, path);
    }

    /// Records an entry that could not be read.
    pub fn record_no_permission(&mut self)
        ensures
            final(self).no_permissions,
            final(self).file_not_found == old(self).file_not_found,
            final(self).unknown_error == old(self).unknown_error,
            final(self).abort == old(self).abort,
    {
        self.no_permissions = true;
    }

    /// Records why a directory could not be listed.
    pub fn record_listing_failure(&mut self, failure: ListingFailure)
        requires
            old(self).wf(),
        ensures
            final(self).wf(),
            final(self).abort == old(self).abort,
            final(self).no_permissions == (old(self).no_permissions
                || failure is PermissionDenied),
            texts(final(self).file_not_found@) == match failure {
                ListingFailure::NotFound(m) => texts(old(self).file_not_found@).insert(m@),
                _ => texts(old(self).file_not_found@),
            },
            texts(final(self).unknown_error@) == match failure {
                ListingFailure::Other(m) => texts(old(self).unknown_error@).insert(m@),
                _ => texts(old(self).unknown_error@),
            },
            !(failure is NotFound) ==> final(self).file_not_found == old(self).file_not_found,
            !(failure is Other) ==> final(self).unknown_error == old(self).unknown_error,
    {
        match failure {
            ListingFailure::PermissionDenied => self.no_permissions = true,
            ListingFailure::NotFound(m) => insert_distinct(&mut self.file_not_found, m),
            ListingFailure::Other(m) => insert_distinct(&mut self.unknown_error, m),
        }
    }
}

} // verus!
