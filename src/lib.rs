//! Size-annotated directory trees for disk-usage views: path classification,
//! node construction, hard-link deduplication, depth-bounded projections and
//! a step-driven walker whose filesystem work is done by the caller.

pub mod node;
pub mod pattern;
pub mod classify;
pub mod dedup;
pub mod progress;
pub mod walker;
pub mod walk_manager;
pub mod paths;
pub mod params;
