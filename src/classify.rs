use crate::pattern::{any_match, matches_any, Pattern};
use vstd::prelude::*;

verus! {

/// What one walk needs to decide about each entry. It is not changed while
/// the walk runs.
pub struct WalkData {
    /// Paths skipped entirely, compared as exact text.
    pub ignore_directories: Vec<String>,
    /// When non-empty, an entry keeps its own size only if one of these matches.
    pub filter_regex: Vec<Pattern>,
    /// An entry that one of these matches has its own size counted as zero.
    pub invert_filter_regex: Vec<Pattern>,
    /// Count nominal lengths instead of allocated space; hard links are then
    /// not collapsed.
    pub use_apparent_size: bool,
}

/// How an entry is treated by a walk.
#[derive(Debug, PartialEq, Eq, Clone, Copy, Structural)]
pub enum Classification {
    /// Not visited and not present in the tree.
    SkipEntirely,
    /// Present, but its own contribution to the size is zero.
    MeasureZero,
    /// Present with its measured size.
    MeasureFull,
}

/// The positive filter list is in use and none of its patterns matches.
pub open spec fn misses_filter(filter_regex: Seq<Pattern>, path: Seq<char>) -> bool {
    filter_regex.len() > 0 && !matches_any(filter_regex, path)
}

/// The entry's own size is counted as zero by filter policy.
pub open spec fn filtered_out(data: WalkData, path: Seq<char>) -> bool {
    misses_filter(data.filter_regex@, path) || matches_any(data.invert_filter_regex@, path)
}

/// `path` is one of the ignored paths.
pub open spec fn ignored(ignore: Seq<String>, path: Seq<char>) -> bool {
    exists|i: int| 0 <= i < ignore.len() && #[trigger] ignore[i]@ == path
}

pub open spec fn classification(data: WalkData, path: Seq<char>) -> Classification {
    if ignored(data.ignore_directories@, path) {
        Classification::SkipEntirely
    } else if filtered_out(data, path) {
        Classification::MeasureZero
    } else {
        Classification::MeasureFull
    }
}

/// True when the positive filter list is non-empty and no pattern of it
/// matches `dir`. An empty list filters nothing and runs no pattern.
pub fn is_filtered_out_due_to_regex(filter_regex: &[Pattern], dir: &str) -> (r: bool)
    ensures
        r == misses_filter(filter_regex@, dir@),
{
    if filter_regex.len() == 0 {
        false
    } else {
        !any_match(filter_regex, dir)
    }
}

/// True when some pattern of the negative filter list matches `dir`.
pub fn is_filtered_out_due_to_invert_regex(filter_regex: &[Pattern], dir: &str) -> (r: bool)
    ensures
        r == matches_any(filter_regex@, dir@),
{
    any_match(filter_regex, dir)
}

/// Whether `path` is one of the ignored paths (exact match).
pub fn is_ignored(ignore: &[String], path: &String) -> (r: bool)
    ensures
        r == ignored(ignore@, path@),
{
    let mut i: usize = 0;
    while i < ignore.len()
        invariant
            0 <= i <= ignore@.len(),
            forall|j: int| 0 <= j < i ==> #[trigger] ignore@[j]@ != path@,
        decreases ignore@.len() - i,
    {
        if ignore[i].eq(path) {
            return true;
        }
        i = i + 1;
    }
    false
}

impl WalkData {
    /// Classifies one entry by its full path.
    pub fn classify(&self, path: &String) -> (r: Classification)
        ensures
            r == classification(*self, path@),
    {
        if is_ignored(self.ignore_directories.as_slice(), path) {
            Classification::SkipEntirely
        } else if is_filtered_out_due_to_regex(self.filter_regex.as_slice(), path.as_str())
            || is_filtered_out_due_to_invert_regex(self.invert_filter_regex.as_slice(), path.as_str()) {
            Classification::MeasureZero
        } else {
            Classification::MeasureFull
        }
    }
}

} // verus!
