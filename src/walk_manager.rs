use crate::node::{copy_truncated, truncated_copy, Node};
use crate::progress::{ErrorHandler, ProgressHandler};
use vstd::prelude::*;

verus! {

/// Keeps the last completed tree and the state of the current walk. A
/// host shares one manager between threads behind a lock.
pub struct WalkManager {
    pub node: Option<Node>,
    pub errors: ErrorHandler,
    pub progress: ProgressHandler,
}

/// `r` is what a reader of `stored` gets: nothing, or a copy projected at
/// `max_depth`.
pub open spec fn read_of(r: Option<Node>, stored: Option<Node>, max_depth: Option<usize>) -> bool {
    match stored {
        None => r is None,
        Some(t) => r matches Some(n) && truncated_copy(n, t, max_depth),
    }
}

impl WalkManager {
    /// The stored tree.
    pub open spec fn stored(&self) -> Option<Node> {
        self.node
    }

    pub fn new() -> (r: WalkManager)
        ensures
            r.stored() is None,
            r.errors.wf(),
            !r.errors.abort,
            !r.errors.no_permissions,
            r.errors.file_not_found@.len() == 0,
            r.errors.unknown_error@.len() == 0,
            r.progress.num_files == 0,
            r.progress.total_file_size == 0,
            !r.progress.scan_complete,
    {
        WalkManager { node: None, errors: ErrorHandler::new(), progress: ProgressHandler::new() }
    }

    /// Replaces the stored tree.
    pub fn set_node(&mut self, node: Option<Node>)
        ensures
            final(self).stored() == node,
            final(self).errors == old(self).errors,
            final(self).progress == old(self).progress,
    {
        self.node = node;
    }

    /// A full copy of the stored tree.
    pub fn get_node(&self) -> (r: Option<Node>)
        ensures
            read_of(r, self.stored(), None),
    {
        match &self.node {
            Some(t) => Some(copy_truncated(t, None)),
            None => None,
        }
    }

    /// A copy of the stored tree in which nodes at depth `max_depth` or
    /// deeper have no children; every size is kept.
    pub fn get_truncated_node(&self, max_depth: usize) -> (r: Option<Node>)
        ensures
            read_of(r, self.stored(), Some(max_depth)),
    {
        match &self.node {
            Some(t) => Some(copy_truncated(t, Some(max_depth))),
            None => None,
        }
    }

    pub fn get_error_handler(&self) -> (r: &ErrorHandler)
        ensures
            *r == self.errors,
    {
        &self.errors
    }

    /// Sets or clears the abort flag; nothing else changes, the stored tree
    /// included.
    pub fn set_abort_flag(&mut self, flag: bool)
        ensures
            final(self).errors.abort == flag,
            final(self).errors.no_permissions == old(self).errors.no_permissions,
            final(self).errors.file_not_found == old(self).errors.file_not_found,
            final(self).errors.unknown_error == old(self).errors.unknown_error,
            final(self).stored() == old(self).stored(),
            final(self).progress == old(self).progress,
    {
        self.errors.abort = flag;
    }

    pub fn get_progress_handler(&self) -> (r: &ProgressHandler)
        ensures
            *r == self.progress,
    {
        &self.progress
    }
}

} // verus!
